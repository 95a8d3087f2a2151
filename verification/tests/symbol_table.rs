use sysy_compiler::parser::ast::common::Type;
use sysy_compiler::semantic::symbol_table::{Qualifier, SymbolInfo, SymbolInfoError, SymbolTable, SymbolTableError};

fn int_type() -> Type {
    Type::Simple("int".to_string())
}

fn var() -> SymbolInfo {
    SymbolInfo { qualifier: Qualifier::Var, ty: int_type(), const_val: None }
}

fn constant(v: i32) -> SymbolInfo {
    SymbolInfo { qualifier: Qualifier::Const, ty: int_type(), const_val: Some(v) }
}

#[test]
fn find_after_add() {
    let mut t = SymbolTable::new();
    assert!(t.add_symbol("a".to_string(), var()).is_ok());
    assert_eq!(t.find_symbol(&"a".to_string()).unwrap(), var());
}

#[test]
fn redefinition_is_refused_and_keeps_the_first() {
    let mut t = SymbolTable::new();
    t.add_symbol("a".to_string(), var()).unwrap();
    match t.add_symbol("a".to_string(), constant(1)) {
        Err(SymbolTableError::SymbolRedefined(name)) => assert_eq!(name, "a"),
        other => panic!("unexpected {:?}", other),
    }
    assert_eq!(t.find_symbol(&"a".to_string()).unwrap(), var());
}

#[test]
fn missing_symbol_is_not_found() {
    let t = SymbolTable::new();
    match t.find_symbol(&"b".to_string()) {
        Err(SymbolTableError::SymbolNotFound(name)) => assert_eq!(name, "b"),
        other => panic!("unexpected {:?}", other),
    }
}

#[test]
fn inner_scope_shadows_until_left() {
    let mut t = SymbolTable::new();
    t.add_symbol("a".to_string(), var()).unwrap();
    let mut inner = t.enter_scope();
    assert!(!inner.is_top_scope());
    inner.add_symbol("a".to_string(), constant(7)).unwrap();
    assert_eq!(inner.find_symbol(&"a".to_string()).unwrap(), constant(7));
    let outer = inner.exit_scope().unwrap();
    assert!(outer.is_top_scope());
    assert_eq!(outer.find_symbol(&"a".to_string()).unwrap(), var());
}

#[test]
fn leaving_the_outermost_scope_is_refused() {
    let t = SymbolTable::new();
    assert!(t.is_top_scope());
    assert!(matches!(t.exit_scope(), Err(SymbolTableError::NoParentScope)));
}

#[test]
fn removing_uncovers_the_outer_symbol() {
    let mut t = SymbolTable::new();
    t.add_symbol("a".to_string(), var()).unwrap();
    let mut inner = t.enter_scope();
    inner.add_symbol("a".to_string(), constant(3)).unwrap();
    inner.remove_symbol(&"a".to_string());
    assert_eq!(inner.find_symbol(&"a".to_string()).unwrap(), var());
    inner.remove_symbol(&"missing".to_string());
    assert_eq!(inner.find_symbol(&"a".to_string()).unwrap(), var());
}

#[test]
fn set_parent_puts_the_current_scope_under_the_parent() {
    let mut parent = SymbolTable::new();
    parent.add_symbol("p".to_string(), var()).unwrap();
    let mut child = SymbolTable::new();
    child.add_symbol("c".to_string(), constant(2)).unwrap();
    child.set_parent(&parent);
    assert!(!child.is_top_scope());
    assert_eq!(child.find_symbol(&"p".to_string()).unwrap(), var());
    assert_eq!(child.find_symbol(&"c".to_string()).unwrap(), constant(2));
    let up = child.exit_scope().unwrap();
    assert!(up.find_symbol(&"c".to_string()).is_err());
}

#[test]
fn constant_values() {
    assert!(constant(4).is_const_val());
    assert!(!var().is_const_val());
    assert_eq!(constant(4).const_val_of().unwrap(), 4);
    assert!(matches!(var().const_val_of(), Err(SymbolInfoError::NotConstValue)));
}
