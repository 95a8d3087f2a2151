use sysy_compiler::ir::inkwell::builder::{Scope, ScopeError};
use sysy_compiler::ir::program_builder::{NameGenerator, SymbolValueMap, SymbolValueMapError};

#[test]
fn value_map_find_after_add_and_scopes() {
    let mut m: SymbolValueMap<u32, u8> = SymbolValueMap::new();
    m.add_value("a".to_string(), 1);
    m.add_function("f".to_string(), 9);
    assert_eq!(m.find_value(&"a".to_string()), Some(1));
    assert_eq!(m.find_value(&"f".to_string()), None);
    assert_eq!(m.find_function(&"f".to_string()), Some(9));
    let mut inner = m.enter_scope();
    assert_eq!(inner.find_value(&"a".to_string()), Some(1));
    inner.add_value("a".to_string(), 2);
    inner.add_value("a".to_string(), 3);
    assert_eq!(inner.find_value(&"a".to_string()), Some(3));
    let outer = inner.exit_scope().unwrap();
    assert_eq!(outer.find_value(&"a".to_string()), Some(1));
    assert!(matches!(outer.exit_scope(), Err(SymbolValueMapError::NoParentScope)));
}

#[test]
fn scope_find_after_add_and_scopes() {
    let mut s: Scope<i64, i64> = Scope::new();
    s.add_function("main".to_string(), 0);
    let mut inner = s.enter_scope();
    inner.add_value("x".to_string(), 42);
    assert_eq!(inner.find_value(&"x".to_string()), Some(42));
    assert_eq!(inner.find_function(&"main".to_string()), Some(0));
    let outer = inner.exit_scope().unwrap();
    assert_eq!(outer.find_value(&"x".to_string()), None);
    assert!(matches!(outer.exit_scope(), Err(ScopeError::NoParentScope)));
}

#[test]
fn generated_names_are_numbered_per_name() {
    let mut g = NameGenerator::new();
    assert!(g.can_generate("%then"));
    assert_eq!(g.generate("%then"), "%then_0");
    assert_eq!(g.generate("%then"), "%then_1");
    assert_eq!(g.generate("%else"), "%else_0");
    for _ in 0..9 {
        g.generate("%then");
    }
    assert_eq!(g.generate("%then"), "%then_11");
}

#[test]
fn generated_names_never_repeat() {
    let mut g = NameGenerator::new();
    let mut seen: Vec<String> = Vec::new();
    for base in ["%a", "%a_0", "%a", "%a_1", "%a_0", "%a", "%b"] {
        let n = g.generate(base);
        assert!(!seen.contains(&n), "{} handed out twice", n);
        seen.push(n);
    }
    assert_eq!(seen[1], "%a_0_0");
    assert_eq!(seen[2], "%a_1");
    assert_eq!(seen[3], "%a_1_0");
}

#[test]
fn scope_exit_after_many_additions_restores_lookups() {
    let mut s: Scope<i64, i64> = Scope::new();
    s.add_value("x".to_string(), 1);
    s.add_function("f".to_string(), 7);
    let mut c = s.enter_scope();
    c.add_value("x".to_string(), 2);
    c.add_value("y".to_string(), 3);
    c.add_function("f".to_string(), 8);
    c.add_function("g".to_string(), 9);
    c.add_value("x".to_string(), 4);
    assert_eq!(c.find_value(&"x".to_string()), Some(4));
    let p = c.exit_scope().unwrap();
    for n in ["x", "y", "f", "g", "z"] {
        assert_eq!(p.find_value(&n.to_string()), s.find_value(&n.to_string()));
        assert_eq!(p.find_function(&n.to_string()), s.find_function(&n.to_string()));
    }
}
