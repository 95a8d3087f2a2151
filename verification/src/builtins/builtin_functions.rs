use crate::parser::ast::common::{SpecType, Type};
use crate::semantic::symbol_table::{entries_view, Qualifier, SymbolInfo, SymbolInfoView};
use vstd::prelude::*;
use vstd::string::StringExecFns;

verus! {

/// The model of the type `int`.
pub open spec fn spec_int() -> SpecType {
    SpecType::Simple("int"@)
}

/// The model of a runtime library function's symbol.
pub open spec fn runtime_fn(params: Seq<SpecType>, ret: SpecType) -> SymbolInfoView {
    SymbolInfoView {
        qualifier: Qualifier::Const,
        ty: SpecType::Function(params, Box::new(ret)),
        const_val: None,
    }
}

/// The functions of the SysY runtime library, by name, in order.
pub open spec fn spec_builtin_functions() -> Seq<(Seq<char>, SymbolInfoView)> {
    let int_ptr = SpecType::Pointer(Box::new(spec_int()));
    seq![
        ("getint"@, runtime_fn(seq![], spec_int())),
        ("getch"@, runtime_fn(seq![], spec_int())),
        ("getarray"@, runtime_fn(seq![int_ptr], spec_int())),
        ("putint"@, runtime_fn(seq![spec_int()], SpecType::Void)),
        ("putch"@, runtime_fn(seq![spec_int()], SpecType::Void)),
        ("putarray"@, runtime_fn(seq![spec_int(), int_ptr], SpecType::Void)),
        ("starttime"@, runtime_fn(seq![], SpecType::Void)),
        ("stoptime"@, runtime_fn(seq![], SpecType::Void)),
    ]
}

/// The runtime library has SysY's signatures: `getint()` and `getch()`
/// return an int; `getarray(int*)` returns an int; `putint(int)`,
/// `putch(int)`, `putarray(int, int*)`, `starttime()` and `stoptime()`
/// return nothing. Each is a constant symbol with no compile-time value.
pub proof fn law_runtime_signatures()
    ensures
        spec_builtin_functions().len() == 8,
        spec_builtin_functions()[0].0 == "getint"@,
        spec_builtin_functions()[0].1 == (SymbolInfoView {
            qualifier: Qualifier::Const,
            ty: SpecType::Function(seq![], Box::new(SpecType::Simple("int"@))),
            const_val: None,
        }),
        spec_builtin_functions()[1].0 == "getch"@,
        spec_builtin_functions()[1].1 == (SymbolInfoView {
            qualifier: Qualifier::Const,
            ty: SpecType::Function(seq![], Box::new(SpecType::Simple("int"@))),
            const_val: None,
        }),
        spec_builtin_functions()[2].0 == "getarray"@,
        spec_builtin_functions()[2].1 == (SymbolInfoView {
            qualifier: Qualifier::Const,
            ty: SpecType::Function(seq![SpecType::Pointer(Box::new(SpecType::Simple("int"@)))], Box::new(SpecType::Simple("int"@))),
            const_val: None,
        }),
        spec_builtin_functions()[3].0 == "putint"@,
        spec_builtin_functions()[3].1 == (SymbolInfoView {
            qualifier: Qualifier::Const,
            ty: SpecType::Function(seq![SpecType::Simple("int"@)], Box::new(SpecType::Void)),
            const_val: None,
        }),
        spec_builtin_functions()[4].0 == "putch"@,
        spec_builtin_functions()[4].1 == (SymbolInfoView {
            qualifier: Qualifier::Const,
            ty: SpecType::Function(seq![SpecType::Simple("int"@)], Box::new(SpecType::Void)),
            const_val: None,
        }),
        spec_builtin_functions()[5].0 == "putarray"@,
        spec_builtin_functions()[5].1 == (SymbolInfoView {
            qualifier: Qualifier::Const,
            ty: SpecType::Function(seq![SpecType::Simple("int"@), SpecType::Pointer(Box::new(SpecType::Simple("int"@)))], Box::new(SpecType::Void)),
            const_val: None,
        }),
        spec_builtin_functions()[6].0 == "starttime"@,
        spec_builtin_functions()[6].1 == (SymbolInfoView {
            qualifier: Qualifier::Const,
            ty: SpecType::Function(seq![], Box::new(SpecType::Void)),
            const_val: None,
        }),
        spec_builtin_functions()[7].0 == "stoptime"@,
        spec_builtin_functions()[7].1 == (SymbolInfoView {
            qualifier: Qualifier::Const,
            ty: SpecType::Function(seq![], Box::new(SpecType::Void)),
            const_val: None,
        }),
{
}

fn int_type() -> (r: Type)
    ensures
        r@ == spec_int(),
{
    Type::Simple(String::from_str("int"))
}

fn int_ptr_type() -> (r: Type)
    ensures
        r@ == SpecType::Pointer(Box::new(spec_int())),
{
    Type::Pointer(Box::new(int_type()))
}

fn runtime_function(name: &str, params: Vec<Box<Type>>, ret: Type) -> (r: (String, SymbolInfo))
    ensures
        r.0@ == name@,
        r.1@ == runtime_fn(Seq::new(params@.len(), |i: int| (*params@[i])@), ret@),
{
    proof {
        crate::parser::ast::common::lemma_type_seq_view(params@);
        assert(crate::parser::ast::common::type_seq_view(params@) =~= Seq::new(params@.len(), |i: int| (*params@[i])@));
    }
    (String::from_str(name), SymbolInfo {
        qualifier: Qualifier::Const,
        ty: Type::Function(params, Box::new(ret)),
        const_val: None,
    })
}

/// The symbols of the SysY runtime library, which every program may call.
pub fn get_builtin_functions() -> (r: Vec<(String, SymbolInfo)>)
    ensures
        entries_view(r@) == spec_builtin_functions(),
{
    let ghost int_ptr = SpecType::Pointer(Box::new(spec_int()));
    let mut r: Vec<(String, SymbolInfo)> = Vec::new();
    let e = runtime_function("getint", Vec::new(), int_type());
    assert(e.1@.ty->Function_0 =~= Seq::<SpecType>::empty());
    r.push(e);
    let e = runtime_function("getch", Vec::new(), int_type());
    assert(e.1@.ty->Function_0 =~= Seq::<SpecType>::empty());
    r.push(e);
    let mut p: Vec<Box<Type>> = Vec::new();
    p.push(Box::new(int_ptr_type()));
    let e = runtime_function("getarray", p, int_type());
    assert(e.1@.ty->Function_0 =~= seq![int_ptr]);
    r.push(e);
    let mut p: Vec<Box<Type>> = Vec::new();
    p.push(Box::new(int_type()));
    let e = runtime_function("putint", p, Type::Void);
    assert(e.1@.ty->Function_0 =~= seq![spec_int()]);
    r.push(e);
    let mut p: Vec<Box<Type>> = Vec::new();
    p.push(Box::new(int_type()));
    let e = runtime_function("putch", p, Type::Void);
    assert(e.1@.ty->Function_0 =~= seq![spec_int()]);
    r.push(e);
    let mut p: Vec<Box<Type>> = Vec::new();
    p.push(Box::new(int_type()));
    p.push(Box::new(int_ptr_type()));
    let e = runtime_function("putarray", p, Type::Void);
    assert(e.1@.ty->Function_0 =~= seq![spec_int(), int_ptr]);
    r.push(e);
    let e = runtime_function("starttime", Vec::new(), Type::Void);
    assert(e.1@.ty->Function_0 =~= Seq::<SpecType>::empty());
    r.push(e);
    let e = runtime_function("stoptime", Vec::new(), Type::Void);
    assert(e.1@.ty->Function_0 =~= Seq::<SpecType>::empty());
    r.push(e);
    assert(entries_view(r@) =~= spec_builtin_functions());
    r
}

} // verus!
