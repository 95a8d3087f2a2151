use sysy_compiler::ir::program::{BasicBlock, FunctionData, IrBinaryOp, IrType, Program, Value, ValueKind};
use sysy_compiler::ir::program_builder::{ProgramBuilder, ProgramBuilderError};
use sysy_compiler::parser::ast::common::{Identifier, Type};
use sysy_compiler::parser::ast::compile_unit::CompileUnit;
use sysy_compiler::parser::ast::expression::{BinaryOp, Expression};
use sysy_compiler::parser::ast::item::{FuncDef, Item};
use sysy_compiler::parser::ast::statement::Statement;
use sysy_compiler::semantic::check::SemanticChecker;
use sysy_compiler::semantic::symbol_table::SymbolInfoError;

fn int_type() -> Type {
    Type::Simple("int".to_string())
}

fn id(n: &str) -> Identifier {
    Identifier::new(n.to_string())
}

fn var(n: &str) -> Expression {
    Expression::Ident(id(n))
}

fn func(name: &str, fparams: Vec<(Identifier, Type)>, body: Vec<Statement>) -> Item {
    Item::FuncDef(FuncDef { ident: id(name), fparams, return_type: int_type(), body })
}

fn build(items: Vec<Item>) -> Result<Program, ProgramBuilderError> {
    let mut cu = CompileUnit { items };
    SemanticChecker::new().check(&mut cu).unwrap();
    ProgramBuilder::new(cu).build_compunit()
}

fn block_names(f: &FunctionData) -> Vec<String> {
    f.layout.iter().map(|(bb, _)| f.bbs[bb.0].clone().unwrap()).collect()
}

fn last_of(f: &FunctionData, k: usize) -> &ValueKind {
    let insts = &f.layout[k].1;
    match insts[insts.len() - 1] {
        Value::Local(v) => &f.values[v],
        Value::Global(_) => panic!("a global in a block"),
    }
}

#[test]
fn runtime_library_is_declared_first() {
    let prog = build(vec![func("main", vec![], vec![Statement::Return(Expression::IntLit(0))])]).unwrap();
    assert_eq!(prog.funcs.len(), 9);
    assert_eq!(prog.funcs[0].name, "@getint");
    assert_eq!(prog.funcs[7].name, "@stoptime");
    for f in &prog.funcs[..8] {
        assert!(f.layout.is_empty() && f.values.is_empty() && f.params.is_empty());
    }
    assert!(matches!(prog.funcs[3].ret_ty, IrType::Unit));
    assert!(matches!(prog.funcs[3].params_ty[0], IrType::I32));
    match &prog.funcs[2].params_ty[0] {
        IrType::Pointer(b) => assert!(matches!(**b, IrType::I32)),
        other => panic!("unexpected {:?}", other),
    }
}

#[test]
fn return_of_a_literal() {
    let prog = build(vec![func("main", vec![], vec![Statement::Return(Expression::IntLit(0))])]).unwrap();
    let f = &prog.funcs[8];
    assert_eq!(f.name, "@main");
    assert_eq!(block_names(f), vec!["%entry_0"]);
    assert!(matches!(f.values[0], ValueKind::Integer(0)));
    assert!(matches!(f.values[1], ValueKind::Return(Some(Value::Local(0)))));
    assert_eq!(f.layout[0].1, vec![Value::Local(1)]);
}

#[test]
fn empty_body_gets_a_return() {
    let prog = build(vec![func("main", vec![], vec![])]).unwrap();
    let f = &prog.funcs[8];
    assert_eq!(f.layout[0].1.len(), 1);
    assert!(matches!(last_of(f, 0), ValueKind::Return(None)));
}

#[test]
fn statements_after_a_return_are_skipped() {
    let prog = build(vec![func(
        "main",
        vec![],
        vec![Statement::Return(Expression::IntLit(1)), Statement::Return(Expression::IntLit(2))],
    )])
    .unwrap();
    let f = &prog.funcs[8];
    assert_eq!(f.values.len(), 2);
    assert!(matches!(f.values[0], ValueKind::Integer(1)));
}

#[test]
fn parameters_get_slots_in_the_entry_block() {
    let prog = build(vec![func(
        "id",
        vec![(id("x"), int_type())],
        vec![Statement::Return(var("x"))],
    )])
    .unwrap();
    let f = &prog.funcs[8];
    assert_eq!(f.params, vec![Value::Local(0)]);
    assert!(matches!(f.values[0], ValueKind::FuncArgRef(0)));
    assert!(matches!(f.values[1], ValueKind::Alloc(IrType::I32)));
    assert!(matches!(f.values[2], ValueKind::Store(Value::Local(0), Value::Local(1))));
    assert!(matches!(f.values[3], ValueKind::Load(Value::Local(1))));
    assert!(matches!(f.values[4], ValueKind::Return(Some(Value::Local(3)))));
    assert_eq!(f.layout[0].1, vec![Value::Local(1), Value::Local(2), Value::Local(3), Value::Local(4)]);
}

#[test]
fn binary_operators_map_to_koopa() {
    let e = Expression::Binary(Box::new(Expression::IntLit(7)), BinaryOp::Rem, Box::new(Expression::IntLit(3)));
    let prog = build(vec![func("main", vec![], vec![Statement::Return(e)])]).unwrap();
    let f = &prog.funcs[8];
    assert!(f.values.iter().any(|k| matches!(k, ValueKind::Binary(IrBinaryOp::Mod, Value::Local(0), Value::Local(1)))));
}

#[test]
fn if_else_blocks_and_jumps() {
    let body = vec![
        Statement::VarDecl(vec![(int_type(), id("a"), Some(Expression::IntLit(1)))]),
        Statement::If(
            var("a"),
            Box::new(Statement::Assign(id("a"), Expression::IntLit(2))),
            Some(Box::new(Statement::Assign(id("a"), Expression::IntLit(3)))),
        ),
        Statement::Return(var("a")),
    ];
    let prog = build(vec![func("main", vec![], body)]).unwrap();
    let f = &prog.funcs[8];
    assert_eq!(block_names(f), vec!["%entry_0", "%guard_0", "%merge_0", "%then_0", "%else_0"]);
    assert!(matches!(last_of(f, 0), ValueKind::Jump(BasicBlock(1))));
    assert!(matches!(last_of(f, 1), ValueKind::Branch(_, BasicBlock(3), BasicBlock(4))));
    assert!(matches!(last_of(f, 2), ValueKind::Return(Some(_))));
    assert!(matches!(last_of(f, 3), ValueKind::Jump(BasicBlock(2))));
    assert!(matches!(last_of(f, 4), ValueKind::Jump(BasicBlock(2))));
}

#[test]
fn if_without_else_branches_to_merge() {
    let body = vec![
        Statement::If(Expression::IntLit(0), Box::new(Statement::Return(Expression::IntLit(1))), None),
        Statement::Return(Expression::IntLit(2)),
    ];
    let prog = build(vec![func("main", vec![], body)]).unwrap();
    let f = &prog.funcs[8];
    assert_eq!(block_names(f), vec!["%entry_0", "%guard_0", "%merge_0", "%then_0"]);
    assert!(matches!(last_of(f, 1), ValueKind::Branch(_, BasicBlock(3), BasicBlock(2))));
    assert_eq!(f.layout[3].1.len(), 1);
    assert!(matches!(last_of(f, 3), ValueKind::Return(Some(_))));
}

#[test]
fn while_with_break_and_continue() {
    let body = vec![
        Statement::While(
            Expression::IntLit(1),
            Box::new(Statement::Block(vec![Box::new(Statement::Continue), Box::new(Statement::Break)])),
        ),
        Statement::Return(Expression::IntLit(0)),
    ];
    let prog = build(vec![func("main", vec![], body)]).unwrap();
    let f = &prog.funcs[8];
    assert_eq!(
        block_names(f),
        vec!["%entry_0", "%while_guard_0", "%while_body_0", "%while_end_0", "%after_continue_0", "%after_break_0"]
    );
    assert!(matches!(last_of(f, 0), ValueKind::Jump(BasicBlock(1))));
    assert!(matches!(last_of(f, 1), ValueKind::Branch(_, BasicBlock(2), BasicBlock(3))));
    assert!(matches!(last_of(f, 2), ValueKind::Jump(BasicBlock(1))));
    assert!(matches!(last_of(f, 4), ValueKind::Jump(BasicBlock(3))));
    assert!(matches!(last_of(f, 5), ValueKind::Jump(BasicBlock(1))));
    assert!(matches!(last_of(f, 3), ValueKind::Return(Some(_))));
}

#[test]
fn short_circuit_blocks() {
    let e = Expression::Binary(Box::new(Expression::IntLit(0)), BinaryOp::LogicalAnd, Box::new(Expression::IntLit(1)));
    let prog = build(vec![func("main", vec![], vec![Statement::Return(e)])]).unwrap();
    let f = &prog.funcs[8];
    assert_eq!(
        block_names(f),
        vec!["%entry_0", "@short_circuit_block_0", "@eval_rhs_block_0", "@short_circuit_merge_0"]
    );
    assert!(matches!(last_of(f, 0), ValueKind::Branch(_, BasicBlock(2), BasicBlock(1))));
    assert!(matches!(last_of(f, 1), ValueKind::Jump(BasicBlock(3))));
    assert!(matches!(last_of(f, 2), ValueKind::Jump(BasicBlock(3))));
    assert!(matches!(last_of(f, 3), ValueKind::Return(Some(_))));
}

#[test]
fn globals_are_folded_and_named() {
    let g = Item::GlobalVar(Statement::VarDecl(vec![
        (int_type(), id("g"), Some(Expression::Binary(Box::new(Expression::IntLit(2)), BinaryOp::Add, Box::new(Expression::IntLit(3))))),
        (int_type(), id("h"), None),
    ]));
    let prog = build(vec![g, func("main", vec![], vec![Statement::Return(var("g"))])]).unwrap();
    assert_eq!(prog.values.len(), 4);
    assert!(matches!(prog.values[0], (ValueKind::Integer(5), None)));
    assert!(matches!(prog.values[1].0, ValueKind::GlobalAlloc(Value::Global(0))));
    assert_eq!(prog.values[1].1, Some("%g".to_string()));
    assert!(matches!(prog.values[2].0, ValueKind::ZeroInit(IrType::I32)));
    assert_eq!(prog.values[3].1, Some("%h".to_string()));
    let f = &prog.funcs[8];
    assert!(matches!(f.values[0], ValueKind::Load(Value::Global(1))));
}

#[test]
fn calls_refer_to_functions_by_position() {
    let prog = build(vec![func(
        "main",
        vec![],
        vec![
            Statement::Expression(Some(Expression::Call(id("putint"), vec![Expression::IntLit(5)]))),
            Statement::Return(Expression::Call(id("getint"), vec![])),
        ],
    )])
    .unwrap();
    let f = &prog.funcs[8];
    assert!(f.values.iter().any(|k| matches!(k, ValueKind::Call(sysy_compiler::ir::program::Function(3), a) if a.len() == 1)));
    assert!(f.values.iter().any(|k| matches!(k, ValueKind::Call(sysy_compiler::ir::program::Function(0), a) if a.is_empty())));
}

#[test]
fn a_constant_without_value_is_an_error() {
    let body = vec![
        Statement::ConstDecl(vec![(int_type(), id("c"), Expression::Call(id("getint"), vec![]))]),
        Statement::Return(var("c")),
    ];
    match build(vec![func("main", vec![], body)]) {
        Err(ProgramBuilderError::SymbolInfoError(SymbolInfoError::NotConstValue)) => {},
        other => panic!("unexpected {:?}", other.map(|p| p.funcs.len())),
    }
}

#[test]
fn block_names_never_repeat_within_a_function() {
    let inner_if = || {
        Statement::If(
            Expression::IntLit(1),
            Box::new(Statement::If(Expression::IntLit(0), Box::new(Statement::Return(Expression::IntLit(1))), None)),
            Some(Box::new(Statement::Return(Expression::IntLit(2)))),
        )
    };
    let body = || vec![inner_if(), inner_if(), Statement::Return(Expression::IntLit(0))];
    let prog = build(vec![func("f", vec![], body()), func("main", vec![], body())]).unwrap();
    for f in &prog.funcs[8..] {
        let names: Vec<Option<String>> = f.bbs.clone();
        for i in 0..names.len() {
            for j in (i + 1)..names.len() {
                assert_ne!(names[i], names[j]);
            }
        }
    }
    assert_eq!(prog.funcs[9].bbs[0], Some("%entry_1".to_string()));
    assert_eq!(prog.funcs[9].bbs[1], Some("%guard_4".to_string()));
}

#[test]
fn break_after_an_if_still_leaves_the_loop() {
    let body = vec![
        Statement::VarDecl(vec![(int_type(), id("x"), Some(Expression::IntLit(0)))]),
        Statement::While(
            Expression::IntLit(1),
            Box::new(Statement::Block(vec![
                Box::new(Statement::If(var("x"), Box::new(Statement::Block(vec![])), None)),
                Box::new(Statement::Break),
            ])),
        ),
        Statement::Return(Expression::IntLit(0)),
    ];
    let prog = build(vec![func("main", vec![], body)]).unwrap();
    let f = &prog.funcs[8];
    // entry, while guard/body/end, if guard/merge/then, then the block after the break
    let names = block_names(f);
    assert!(names.contains(&"%after_break_0".to_string()));
    let merge = f.layout.iter().position(|(bb, _)| f.bbs[bb.0].as_deref() == Some("%merge_0")).unwrap();
    let end = f.bbs.iter().position(|n| n.as_deref() == Some("%while_end_0")).unwrap();
    assert!(matches!(last_of(f, merge), ValueKind::Jump(BasicBlock(e)) if *e == end));
}

#[test]
fn short_circuit_or_branches_to_the_store_of_one() {
    let e = Expression::Binary(Box::new(Expression::IntLit(0)), BinaryOp::LogicalOr, Box::new(Expression::IntLit(5)));
    let prog = build(vec![func("main", vec![], vec![Statement::Return(e)])]).unwrap();
    let f = &prog.funcs[8];
    assert!(matches!(last_of(f, 0), ValueKind::Branch(_, BasicBlock(1), BasicBlock(2))));
    let s = &f.layout[1].1;
    assert_eq!(s.len(), 2);
    match f.values[match s[0] { Value::Local(v) => v, _ => panic!() }] {
        ValueKind::Store(Value::Local(k), _) => assert!(matches!(f.values[k], ValueKind::Integer(1))),
        ref other => panic!("unexpected {:?}", other),
    }
    assert!(matches!(last_of(f, 1), ValueKind::Jump(BasicBlock(3))));
}

fn value_of(f: &FunctionData, v: Value) -> &ValueKind {
    match v {
        Value::Local(i) => &f.values[i],
        Value::Global(_) => panic!("a global"),
    }
}

#[test]
fn logical_and_stores_a_truth_value() {
    let e = Expression::Binary(Box::new(Expression::IntLit(1)), BinaryOp::LogicalAnd, Box::new(Expression::IntLit(5)));
    let prog = build(vec![func("main", vec![], vec![Statement::Return(e)])]).unwrap();
    let f = &prog.funcs[8];
    let r = &f.layout[2].1;
    assert_eq!(r.len(), 3);
    match value_of(f, r[0]) {
        ValueKind::Binary(IrBinaryOp::NotEq, x, z) => {
            assert!(matches!(value_of(f, *x), ValueKind::Integer(5)));
            assert!(matches!(value_of(f, *z), ValueKind::Integer(0)));
        },
        other => panic!("unexpected {:?}", other),
    }
    assert!(matches!(value_of(f, r[1]), ValueKind::Store(v, _) if *v == r[0]));
    assert!(matches!(value_of(f, r[2]), ValueKind::Jump(BasicBlock(3))));
}

#[test]
fn no_instruction_is_laid_out_twice() {
    let body = vec![
        Statement::VarDecl(vec![(int_type(), id("a"), Some(Expression::IntLit(1)))]),
        Statement::If(
            var("a"),
            Box::new(Statement::Assign(id("a"), Expression::IntLit(2))),
            Some(Box::new(Statement::Assign(id("a"), Expression::IntLit(3)))),
        ),
        Statement::While(var("a"), Box::new(Statement::Assign(id("a"), Expression::IntLit(0)))),
        Statement::Return(Expression::Binary(Box::new(var("a")), BinaryOp::LogicalOr, Box::new(var("a")))),
    ];
    let prog = build(vec![func("main", vec![], body)]).unwrap();
    let f = &prog.funcs[8];
    let mut seen: Vec<Value> = Vec::new();
    for (_, insts) in &f.layout {
        for v in insts {
            assert!(!seen.contains(v));
            seen.push(*v);
        }
    }
}
