use sysy_compiler::builtins::builtin_functions::get_builtin_functions;
use sysy_compiler::ir::inkwell::typemap::{LlvmTypeKind, TypeMapper};
use sysy_compiler::ir::program::IrType;
use sysy_compiler::ir::typemap::typemap;
use sysy_compiler::parser::ast::common::{Identifier, Type};
use sysy_compiler::semantic::symbol_table::Qualifier;

fn int_type() -> Type {
    Type::Simple("int".to_string())
}

#[test]
fn runtime_library_in_order() {
    let b = get_builtin_functions();
    let names: Vec<&str> = b.iter().map(|(n, _)| n.as_str()).collect();
    assert_eq!(names, vec!["getint", "getch", "getarray", "putint", "putch", "putarray", "starttime", "stoptime"]);
    for (_, info) in b.iter() {
        assert_eq!(info.qualifier, Qualifier::Const);
        assert_eq!(info.const_val, None);
    }
    assert_eq!(b[0].1.ty, Type::Function(vec![], Box::new(int_type())));
    assert_eq!(b[2].1.ty, Type::Function(vec![Box::new(Type::Pointer(Box::new(int_type())))], Box::new(int_type())));
    assert_eq!(
        b[5].1.ty,
        Type::Function(vec![Box::new(int_type()), Box::new(Type::Pointer(Box::new(int_type())))], Box::new(Type::Void))
    );
}

#[test]
fn koopa_types() {
    assert!(matches!(typemap(&Type::Void), IrType::Unit));
    assert!(matches!(typemap(&int_type()), IrType::I32));
    assert!(matches!(typemap(&Type::Simple("float".to_string())), IrType::I32));
    match typemap(&Type::Pointer(Box::new(int_type()))) {
        IrType::Pointer(b) => assert!(matches!(*b, IrType::I32)),
        other => panic!("unexpected {:?}", other),
    }
    match typemap(&Type::Function(vec![Box::new(int_type()), Box::new(Type::Void)], Box::new(Type::Void))) {
        IrType::Function(ps, r) => {
            assert_eq!(ps.len(), 2);
            assert!(matches!(ps[0], IrType::I32));
            assert!(matches!(ps[1], IrType::Unit));
            assert!(matches!(*r, IrType::Unit));
        },
        other => panic!("unexpected {:?}", other),
    }
}

#[test]
fn llvm_type_kinds() {
    let m = TypeMapper::new();
    assert_eq!(m.llvm_kind(&Type::Void), Some(LlvmTypeKind::EmptyStruct));
    assert_eq!(m.llvm_kind(&int_type()), Some(LlvmTypeKind::I32));
    assert_eq!(m.llvm_kind(&Type::Simple("long".to_string())), None);
    assert_eq!(m.llvm_kind(&Type::Pointer(Box::new(int_type()))), None);
    assert_eq!(m.llvm_kind(&Type::Function(vec![], Box::new(int_type()))), Some(LlvmTypeKind::Pointer));
}

#[test]
fn types_copy_and_identifiers_display() {
    let t = Type::Function(vec![Box::new(int_type())], Box::new(Type::Void));
    assert_eq!(t.clone(), t);
    assert_eq!(t.duplicate(), t);
    let id = Identifier::new("x".to_string());
    assert_eq!(id.display(), "x");
    let d = id.duplicate();
    assert_eq!(d.name, "x");
    assert_eq!(d.uuid, id.uuid);
    assert_ne!(Identifier::new("x".to_string()).uuid, id.uuid);
}
