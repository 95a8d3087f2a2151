use crate::builtins::builtin_functions::{get_builtin_functions, spec_builtin_functions};
use crate::parser::ast::common::{
    Identifier, IdentifierView, ResolveStatus, ResolveStatusView, SpecType, Type, type_seq_view,
    lemma_type_seq_view,
};
use crate::parser::ast::compile_unit::CompileUnit;
use crate::parser::ast::expression::{
    BinaryOp, ExprView, Expression, UnaryOp, expr_seq_view, expr_view, lemma_expr_seq_view, spec_fold, truthy,
};
use crate::parser::ast::item::{FuncDef, FuncDefView, Item, ItemView, body_view, fparams_view, items_view};
use crate::parser::ast::statement::{
    Statement, StmtView, const_decl_view, lemma_stmt_seq_view, opt_expr_view, stmt_seq_view,
    stmt_view, var_decl_view,
};
use crate::semantic::symbol_table::{
    Qualifier, SymbolInfo, SymbolInfoView, SymbolTable, SymbolTableError, entries_view, lookup,
    scopes_add,
};
use vstd::prelude::*;

verus! {

/// Errors that the semantic checker reports.
#[derive(Debug)]
pub enum SemanticError {
    UnresolvedSymbol(String),
    /// `break` outside a `while`.
    BreakError,
    /// `continue` outside a `while`.
    ContinueError,
    /// Expected so many arguments, found so many.
    ArgumentCountError(usize, usize),
    /// Expected this type, found that one.
    TypeError(Type, Type),
    /// An assignment to a constant.
    ConstValueError,
    SymbolTableError(SymbolTableError),
}

pub enum SymbolTableErrorView {
    SymbolNotFound(Seq<char>),
    SymbolRedefined(Seq<char>),
    NoParentScope,
}

impl View for SymbolTableError {
    type V = SymbolTableErrorView;

    open spec fn view(&self) -> SymbolTableErrorView {
        match self {
            SymbolTableError::SymbolNotFound(s) => SymbolTableErrorView::SymbolNotFound(s@),
            SymbolTableError::SymbolRedefined(s) => SymbolTableErrorView::SymbolRedefined(s@),
            SymbolTableError::NoParentScope => SymbolTableErrorView::NoParentScope,
        }
    }
}

pub enum SemanticErrorView {
    UnresolvedSymbol(Seq<char>),
    BreakError,
    ContinueError,
    ArgumentCountError(usize, usize),
    TypeError(SpecType, SpecType),
    ConstValueError,
    SymbolTableError(SymbolTableErrorView),
}

impl View for SemanticError {
    type V = SemanticErrorView;

    open spec fn view(&self) -> SemanticErrorView {
        match self {
            SemanticError::UnresolvedSymbol(s) => SemanticErrorView::UnresolvedSymbol(s@),
            SemanticError::BreakError => SemanticErrorView::BreakError,
            SemanticError::ContinueError => SemanticErrorView::ContinueError,
            SemanticError::ArgumentCountError(a, b) => SemanticErrorView::ArgumentCountError(*a, *b),
            SemanticError::TypeError(a, b) => SemanticErrorView::TypeError(a@, b@),
            SemanticError::ConstValueError => SemanticErrorView::ConstValueError,
            SemanticError::SymbolTableError(e) => SemanticErrorView::SymbolTableError(e@),
        }
    }
}

/// The model of a check's result.
pub open spec fn res_view(r: Result<(), SemanticError>) -> Result<(), SemanticErrorView> {
    match r {
        Ok(()) => Ok(()),
        Err(e) => Err(e@),
    }
}

/// The state of the checker: its scopes, innermost last, and how many
/// `while` bodies enclose the statement being checked.
pub struct CheckState {
    pub scopes: Seq<Map<Seq<char>, SymbolInfoView>>,
    pub depth: usize,
}

pub open spec fn not_found(name: Seq<char>) -> SemanticErrorView {
    SemanticErrorView::SymbolTableError(SymbolTableErrorView::SymbolNotFound(name))
}

pub open spec fn redefined(name: Seq<char>) -> SemanticErrorView {
    SemanticErrorView::SymbolTableError(SymbolTableErrorView::SymbolRedefined(name))
}

/// The identifier, resolved to `info`.
pub open spec fn resolved(id: IdentifierView, info: SymbolInfoView) -> IdentifierView {
    IdentifierView { name: id.name, status: ResolveStatusView::Resolved(info), uuid: id.uuid }
}

/// The state with a new, empty innermost scope.
pub open spec fn enter(st: CheckState) -> CheckState {
    CheckState { scopes: st.scopes.push(Map::empty()), depth: st.depth }
}

/// Leaving the innermost scope: refused where it is the only one.
pub open spec fn exit(st: CheckState) -> (Result<(), SemanticErrorView>, CheckState) {
    if st.scopes.len() <= 1 {
        (Err(SemanticErrorView::SymbolTableError(SymbolTableErrorView::NoParentScope)), st)
    } else {
        (Ok(()), CheckState { scopes: st.scopes.drop_last(), depth: st.depth })
    }
}

/// Defining `name` in the innermost scope: refused where that scope
/// already holds it.
pub open spec fn define(st: CheckState, name: Seq<char>, info: SymbolInfoView) -> (Result<(), SemanticErrorView>, CheckState) {
    if st.scopes.last().contains_key(name) {
        (Err(redefined(name)), st)
    } else {
        (Ok(()), CheckState { scopes: scopes_add(st.scopes, name, info), depth: st.depth })
    }
}

/// Checking an expression: the result and the expression with its
/// identifiers resolved, as far as the check got. `None` where the check
/// calls a symbol that is not a function, which is a fault of the checker
/// (it stops the program).
pub open spec fn spec_check_expr(sc: Seq<Map<Seq<char>, SymbolInfoView>>, e: ExprView) -> Option<(Result<(), SemanticErrorView>, ExprView)>
    decreases e, 0int,
{
    match e {
        ExprView::IntLit(_) => Some((Ok(()), e)),
        ExprView::Ident(id) => match lookup(sc, id.name) {
            Some(info) => Some((Ok(()), ExprView::Ident(resolved(id, info)))),
            None => Some((Err(not_found(id.name)), e)),
        },
        ExprView::Unary(op, b) => match spec_check_expr(sc, *b) {
            Some((r, b2)) => Some((r, ExprView::Unary(op, Box::new(b2)))),
            None => None,
        },
        ExprView::Binary(l, op, r) => match spec_check_expr(sc, *l) {
            None => None,
            Some((Err(x), l2)) => Some((Err(x), ExprView::Binary(Box::new(l2), op, r))),
            Some((Ok(()), l2)) => match spec_check_expr(sc, *r) {
                None => None,
                Some((res, r2)) => Some((res, ExprView::Binary(Box::new(l2), op, Box::new(r2)))),
            },
        },
        ExprView::Call(id, args) => match lookup(sc, id.name) {
            None => Some((Err(not_found(id.name)), e)),
            Some(info) => match info.ty {
                SpecType::Function(params, _) => if args.len() != params.len() {
                    Some((Err(SemanticErrorView::ArgumentCountError(params.len() as usize, args.len() as usize)), e))
                } else {
                    match spec_check_args(sc, args, 0) {
                        None => None,
                        Some((res, a2)) => Some((res, ExprView::Call(id, a2))),
                    }
                },
                _ => None,
            },
        },
    }
}

/// Checking the arguments from the `i`-th on, in order, up to the first
/// error: the result and the arguments from the `i`-th on.
pub open spec fn spec_check_args(sc: Seq<Map<Seq<char>, SymbolInfoView>>, args: Seq<ExprView>, i: int) -> Option<(Result<(), SemanticErrorView>, Seq<ExprView>)>
    decreases args, args.len() - i,
{
    if i < 0 || i >= args.len() {
        Some((Ok(()), Seq::empty()))
    } else {
        match spec_check_expr(sc, args[i]) {
            None => None,
            Some((Err(x), a2)) => Some((Err(x), seq![a2] + args.subrange(i + 1, args.len() as int))),
            Some((Ok(()), a2)) => match spec_check_args(sc, args, i + 1) {
                None => None,
                Some((res, rest)) => Some((res, seq![a2] + rest)),
            },
        }
    }
}

/// The checker's results on the arguments, joined to those on the ones
/// before them.
pub open spec fn prepend_args(p: Seq<ExprView>, o: Option<(Result<(), SemanticErrorView>, Seq<ExprView>)>) -> Option<(Result<(), SemanticErrorView>, Seq<ExprView>)> {
    match o {
        None => None,
        Some((r, s)) => Some((r, p + s)),
    }
}

/// Checking an optional expression.
pub open spec fn spec_check_opt_expr(sc: Seq<Map<Seq<char>, SymbolInfoView>>, oe: Option<ExprView>) -> Option<(Result<(), SemanticErrorView>, Option<ExprView>)> {
    match oe {
        None => Some((Ok(()), None)),
        Some(e) => match spec_check_expr(sc, e) {
            None => None,
            Some((r, e2)) => Some((r, Some(e2))),
        },
    }
}

/// Checking the entries of a constant declaration from the `i`-th on:
/// each initialiser is checked, then the name is resolved to a constant
/// holding the initialiser's compile-time value and defined.
pub open spec fn spec_const_decls(st: CheckState, v: Seq<(SpecType, IdentifierView, ExprView)>, i: int) -> Option<(Result<(), SemanticErrorView>, Seq<(SpecType, IdentifierView, ExprView)>, CheckState)>
    decreases v.len() - i,
{
    if i < 0 || i >= v.len() {
        Some((Ok(()), Seq::empty(), st))
    } else {
        let (ty, id, e) = v[i];
        match spec_check_expr(st.scopes, e) {
            None => None,
            Some((Err(x), e2)) => Some((Err(x), seq![(ty, id, e2)] + v.subrange(i + 1, v.len() as int), st)),
            Some((Ok(()), e2)) => {
                let info = SymbolInfoView { qualifier: Qualifier::Const, ty: ty, const_val: spec_fold(e2) };
                let id2 = resolved(id, info);
                let (r, st2) = define(st, id.name, info);
                if r is Err {
                    Some((r, seq![(ty, id2, e2)] + v.subrange(i + 1, v.len() as int), st2))
                } else {
                    match spec_const_decls(st2, v, i + 1) {
                        None => None,
                        Some((r3, rest, st3)) => Some((r3, seq![(ty, id2, e2)] + rest, st3)),
                    }
                }
            },
        }
    }
}

/// Checking the entries of a variable declaration from the `i`-th on.
pub open spec fn spec_var_decls(st: CheckState, v: Seq<(SpecType, IdentifierView, Option<ExprView>)>, i: int) -> Option<(Result<(), SemanticErrorView>, Seq<(SpecType, IdentifierView, Option<ExprView>)>, CheckState)>
    decreases v.len() - i,
{
    if i < 0 || i >= v.len() {
        Some((Ok(()), Seq::empty(), st))
    } else {
        let (ty, id, oe) = v[i];
        match spec_check_opt_expr(st.scopes, oe) {
            None => None,
            Some((Err(x), oe2)) => Some((Err(x), seq![(ty, id, oe2)] + v.subrange(i + 1, v.len() as int), st)),
            Some((Ok(()), oe2)) => {
                let info = SymbolInfoView { qualifier: Qualifier::Var, ty: ty, const_val: None };
                let id2 = resolved(id, info);
                let (r, st2) = define(st, id.name, info);
                if r is Err {
                    Some((r, seq![(ty, id2, oe2)] + v.subrange(i + 1, v.len() as int), st2))
                } else {
                    match spec_var_decls(st2, v, i + 1) {
                        None => None,
                        Some((r3, rest, st3)) => Some((r3, seq![(ty, id2, oe2)] + rest, st3)),
                    }
                }
            },
        }
    }
}

/// Checking a statement: the result, the statement with its identifiers
/// resolved as far as the check got, and the checker's state after it.
/// `None` where the checker stops the program.
pub open spec fn spec_check_stmt(st: CheckState, s: StmtView) -> Option<(Result<(), SemanticErrorView>, StmtView, CheckState)>
    decreases s, 0int,
{
    match s {
        StmtView::Return(e) => match spec_check_expr(st.scopes, e) {
            None => None,
            Some((r, e2)) => Some((r, StmtView::Return(e2), st)),
        },
        StmtView::ConstDecl(v) => match spec_const_decls(st, v, 0) {
            None => None,
            Some((r, v2, st2)) => Some((r, StmtView::ConstDecl(v2), st2)),
        },
        StmtView::VarDecl(v) => match spec_var_decls(st, v, 0) {
            None => None,
            Some((r, v2, st2)) => Some((r, StmtView::VarDecl(v2), st2)),
        },
        StmtView::Assign(lval, e) => match lookup(st.scopes, lval.name) {
            None => Some((Err(not_found(lval.name)), s, st)),
            Some(info) => if info.qualifier == Qualifier::Const {
                Some((Err(SemanticErrorView::ConstValueError), s, st))
            } else {
                match spec_check_expr(st.scopes, e) {
                    None => None,
                    Some((Err(x), e2)) => Some((Err(x), StmtView::Assign(lval, e2), st)),
                    Some((Ok(()), e2)) => Some((Ok(()), StmtView::Assign(resolved(lval, info), e2), st)),
                }
            },
        },
        StmtView::Expression(oe) => match spec_check_opt_expr(st.scopes, oe) {
            None => None,
            Some((r, oe2)) => Some((r, StmtView::Expression(oe2), st)),
        },
        StmtView::Block(ss) => match spec_check_block(enter(st), ss, 0) {
            None => None,
            Some((Err(x), ss2, st2)) => Some((Err(x), StmtView::Block(ss2), st2)),
            Some((Ok(()), ss2, st2)) => Some((exit(st2).0, StmtView::Block(ss2), exit(st2).1)),
        },
        StmtView::If(c, t, e) => match spec_check_expr(st.scopes, c) {
            None => None,
            Some((Err(x), c2)) => Some((Err(x), StmtView::If(c2, t, e), st)),
            Some((Ok(()), c2)) => match spec_check_stmt(enter(st), *t) {
                None => None,
                Some((Err(x), t2, st2)) => Some((Err(x), StmtView::If(c2, Box::new(t2), e), st2)),
                Some((Ok(()), t2, st2)) => {
                    let (r3, st3) = exit(st2);
                    if r3 is Err {
                        Some((r3, StmtView::If(c2, Box::new(t2), e), st3))
                    } else {
                        match e {
                            None => Some((Ok(()), StmtView::If(c2, Box::new(t2), None), st3)),
                            Some(eb) => match spec_check_stmt(enter(st3), *eb) {
                                None => None,
                                Some((Err(x), e2, st4)) => Some((Err(x), StmtView::If(c2, Box::new(t2), Some(Box::new(e2))), st4)),
                                Some((Ok(()), e2, st4)) => Some((exit(st4).0, StmtView::If(c2, Box::new(t2), Some(Box::new(e2))), exit(st4).1)),
                            },
                        }
                    }
                },
            },
        },
        StmtView::While(c, b) => match spec_check_expr(st.scopes, c) {
            None => None,
            Some((Err(x), c2)) => Some((Err(x), StmtView::While(c2, b), st)),
            Some((Ok(()), c2)) => {
                let st1 = CheckState { scopes: st.scopes.push(Map::empty()), depth: st.depth.wrapping_add(1) };
                match spec_check_stmt(st1, *b) {
                    None => None,
                    Some((Err(x), b2, st2)) => Some((Err(x), StmtView::While(c2, Box::new(b2)), CheckState { scopes: st2.scopes, depth: st2.depth.wrapping_sub(1) })),
                    Some((Ok(()), b2, st2)) => {
                        let st3 = CheckState { scopes: st2.scopes, depth: st2.depth.wrapping_sub(1) };
                        Some((exit(st3).0, StmtView::While(c2, Box::new(b2)), exit(st3).1))
                    },
                }
            },
        },
        StmtView::Break => if st.depth == 0 {
            Some((Err(SemanticErrorView::BreakError), s, st))
        } else {
            Some((Ok(()), s, st))
        },
        StmtView::Continue => if st.depth == 0 {
            Some((Err(SemanticErrorView::ContinueError), s, st))
        } else {
            Some((Ok(()), s, st))
        },
    }
}

/// Checking the statements from the `i`-th on, in order, up to the first
/// error, each in the state that the one before it left.
pub open spec fn spec_check_block(st: CheckState, ss: Seq<StmtView>, i: int) -> Option<(Result<(), SemanticErrorView>, Seq<StmtView>, CheckState)>
    decreases ss, ss.len() - i,
{
    if i < 0 || i >= ss.len() {
        Some((Ok(()), Seq::empty(), st))
    } else {
        match spec_check_stmt(st, ss[i]) {
            None => None,
            Some((Err(x), s2, st2)) => Some((Err(x), seq![s2] + ss.subrange(i + 1, ss.len() as int), st2)),
            Some((Ok(()), s2, st2)) => match spec_check_block(st2, ss, i + 1) {
                None => None,
                Some((r, rest, st3)) => Some((r, seq![s2] + rest, st3)),
            },
        }
    }
}

/// The checker's results on a list, joined to those on the entries before.
pub open spec fn prepend_list<A>(p: Seq<A>, o: Option<(Result<(), SemanticErrorView>, Seq<A>, CheckState)>) -> Option<(Result<(), SemanticErrorView>, Seq<A>, CheckState)> {
    match o {
        None => None,
        Some((r, s, st)) => Some((r, p + s, st)),
    }
}

/// The parameter types of a function definition, in order.
pub open spec fn fparams_types(ps: Seq<(IdentifierView, SpecType)>) -> Seq<SpecType> {
    Seq::new(ps.len(), |i: int| ps[i].1)
}

/// The symbol that a function definition defines.
pub open spec fn func_symbol(f: FuncDefView) -> SymbolInfoView {
    SymbolInfoView {
        qualifier: Qualifier::Const,
        ty: SpecType::Function(fparams_types(f.fparams), Box::new(f.return_type)),
        const_val: None,
    }
}

/// Defining the parameters from the `i`-th on as variables, up to the
/// first name that is defined twice: the result, the parameters from the
/// `i`-th on (those defined are resolved), and the state after.
pub open spec fn spec_check_params(st: CheckState, ps: Seq<(IdentifierView, SpecType)>, i: int) -> (Result<(), SemanticErrorView>, Seq<(IdentifierView, SpecType)>, CheckState)
    decreases ps.len() - i,
{
    if i < 0 || i >= ps.len() {
        (Ok(()), Seq::empty(), st)
    } else {
        let (id, ty) = ps[i];
        let info = SymbolInfoView { qualifier: Qualifier::Var, ty: ty, const_val: None };
        let (r, st2) = define(st, id.name, info);
        if r is Err {
            (r, ps.subrange(i, ps.len() as int), st2)
        } else {
            let (r3, rest, st3) = spec_check_params(st2, ps, i + 1);
            (r3, seq![(resolved(id, info), ty)] + rest, st3)
        }
    }
}

/// Checking a top-level item. A function is defined in the current scope
/// (before its body, so that it may call itself); its parameters and body
/// are checked in a scope of their own.
pub open spec fn spec_check_item(st: CheckState, item: ItemView) -> Option<(Result<(), SemanticErrorView>, ItemView, CheckState)> {
    match item {
        ItemView::FuncDef(f) => {
            let info = func_symbol(f);
            let (r, st1) = define(st, f.ident.name, info);
            if r is Err {
                Some((r, item, st1))
            } else {
                let f1 = FuncDefView { ident: resolved(f.ident, info), ..f };
                let (rp, ps2, st2) = spec_check_params(enter(st1), f.fparams, 0);
                let f2 = FuncDefView { fparams: ps2, ..f1 };
                if rp is Err {
                    Some((rp, ItemView::FuncDef(f2), st2))
                } else {
                    match spec_check_block(st2, f.body, 0) {
                        None => None,
                        Some((Err(x), b2, st3)) => Some((Err(x), ItemView::FuncDef(FuncDefView { body: b2, ..f2 }), st3)),
                        Some((Ok(()), b2, st3)) => Some((exit(st3).0, ItemView::FuncDef(FuncDefView { body: b2, ..f2 }), exit(st3).1)),
                    }
                }
            }
        },
        ItemView::GlobalVar(s) => match spec_check_stmt(st, s) {
            None => None,
            Some((r, s2, st2)) => Some((r, ItemView::GlobalVar(s2), st2)),
        },
    }
}

/// Checking the items from the `i`-th on, in order, up to the first error.
pub open spec fn spec_check_items(st: CheckState, items: Seq<ItemView>, i: int) -> Option<(Result<(), SemanticErrorView>, Seq<ItemView>, CheckState)>
    decreases items.len() - i,
{
    if i < 0 || i >= items.len() {
        Some((Ok(()), Seq::empty(), st))
    } else {
        match spec_check_item(st, items[i]) {
            None => None,
            Some((Err(x), it2, st2)) => Some((Err(x), seq![it2] + items.subrange(i + 1, items.len() as int), st2)),
            Some((Ok(()), it2, st2)) => match spec_check_items(st2, items, i + 1) {
                None => None,
                Some((r, rest, st3)) => Some((r, seq![it2] + rest, st3)),
            },
        }
    }
}

/// Defining the symbols from the `i`-th on in the current scope, up to the
/// first that is already there.
pub open spec fn spec_define_all(st: CheckState, entries: Seq<(Seq<char>, SymbolInfoView)>, i: int) -> (Result<(), SemanticErrorView>, CheckState)
    decreases entries.len() - i,
{
    if i < 0 || i >= entries.len() {
        (Ok(()), st)
    } else {
        let (r, st2) = define(st, entries[i].0, entries[i].1);
        if r is Err {
            (r, st2)
        } else {
            spec_define_all(st2, entries, i + 1)
        }
    }
}

/// Checking a whole program: the runtime library's functions are defined
/// in the current scope, then the items are checked in a scope of their
/// own.
pub open spec fn spec_check(st: CheckState, prog: Seq<ItemView>) -> Option<(Result<(), SemanticErrorView>, Seq<ItemView>, CheckState)> {
    let (rb, st1) = spec_define_all(st, spec_builtin_functions(), 0);
    if rb is Err {
        Some((rb, prog, st1))
    } else {
        match spec_check_items(enter(st1), prog, 0) {
            None => None,
            Some((Err(x), p2, st2)) => Some((Err(x), p2, st2)),
            Some((Ok(()), p2, st2)) => Some((exit(st2).0, p2, exit(st2).1)),
        }
    }
}

/// The semantic checker: resolves every identifier of a program to its
/// symbol and reports the first semantic error.
#[derive(Debug)]
pub struct SemanticChecker {
    symtable: SymbolTable,
    while_depth: usize,
}

impl View for SemanticChecker {
    type V = CheckState;

    closed spec fn view(&self) -> CheckState {
        CheckState { scopes: self.symtable@, depth: self.while_depth }
    }
}

impl SemanticChecker {
    /// Well-formedness of the checker's symbol table.
    pub closed spec fn wf(&self) -> bool {
        self.symtable.wf()
    }

    /// The truth value of an integer: non-zero is true.
    #[allow(dead_code)]
    fn i32_to_bool(i: i32) -> (r: bool)
        ensures
            r == truthy(i),
    {
        i != 0
    }

    /// A checker with one empty scope, outside any `while`.
    pub fn new() -> (r: SemanticChecker)
        ensures
            r.wf(),
            r@.scopes == seq![Map::<Seq<char>, SymbolInfoView>::empty()],
            r@.depth == 0,
    {
        SemanticChecker { symtable: SymbolTable::new(), while_depth: 0 }
    }

    fn check_expression(&self, expr: &mut Expression) -> (r: Option<Result<(), SemanticError>>)
        requires
            self.wf(),
        ensures
            r is None <==> spec_check_expr(self@.scopes, old(expr)@) is None,
            r matches Some(res) ==> spec_check_expr(self@.scopes, old(expr)@) == Some((res_view(res), final(expr)@)),
        decreases *old(expr), 0int,
    {
        match expr {
            Expression::IntLit(_) => Some(Ok(())),
            Expression::Ident(id) => match self.symtable.find_symbol(&id.name) {
                Ok(info) => {
                    id.resolve_status = ResolveStatus::Resolved(info);
                    Some(Ok(()))
                },
                Err(e) => Some(Err(SemanticError::SymbolTableError(e))),
            },
            Expression::Unary(_, b) => self.check_expression(b),
            Expression::Binary(l, _, r) => match self.check_expression(l) {
                None => None,
                Some(Err(e)) => Some(Err(e)),
                Some(Ok(())) => self.check_expression(r),
            },
            Expression::Call(id, args) => match self.symtable.find_symbol(&id.name) {
                Err(e) => Some(Err(SemanticError::SymbolTableError(e))),
                Ok(info) => match &info.ty {
                    Type::Function(params, _) => {
                        proof {
                            lemma_type_seq_view(params@);
                            lemma_expr_seq_view(args@);
                        }
                        if args.len() != params.len() {
                            Some(Err(SemanticError::ArgumentCountError(params.len(), args.len())))
                        } else {
                            self.check_args(args)
                        }
                    },
                    _ => None,
                },
            },
        }
    }

    fn check_args(&self, args: &mut Vec<Expression>) -> (r: Option<Result<(), SemanticError>>)
        requires
            self.wf(),
        ensures
            final(args)@.len() == old(args)@.len(),
            r is None <==> spec_check_args(self@.scopes, expr_seq_view(old(args)@), 0) is None,
            r matches Some(res) ==> spec_check_args(self@.scopes, expr_seq_view(old(args)@), 0)
                == Some((res_view(res), expr_seq_view(final(args)@))),
        decreases *old(args), 1int,
    {
        let ghost sc = self@.scopes;
        let ghost orig = expr_seq_view(args@);
        proof {
            lemma_expr_seq_view(args@);
        }
        let mut i: usize = 0;
        while i < args.len()
            invariant
                self.wf(),
                sc == self@.scopes,
                orig.len() == args@.len(),
                orig == expr_seq_view(old(args)@),
                args@.len() == old(args)@.len(),
                i <= args@.len(),
                forall|j: int| i <= j < args@.len() ==> args@[j] == old(args)@[j],
                forall|j: int| 0 <= j < args@.len() ==> orig[j] == expr_view(old(args)@[j]),
                spec_check_args(sc, orig, 0) == prepend_args(
                    Seq::new(i as nat, |j: int| expr_view(args@[j])),
                    spec_check_args(sc, orig, i as int),
                ),
            decreases args@.len() - i,
        {
            let ghost before = args@;
            proof {
                assert(decreases_to!(*old(args) => old(args)@));
                assert(decreases_to!(old(args)@ => old(args)@[i as int]));
            }
            let r = self.check_expression(&mut args[i]);
            let ghost after = args@;
            assert(orig[i as int] == expr_view(before[i as int]));
            match r {
                None => {
                    return None;
                },
                Some(Err(e)) => {
                    proof {
                        lemma_expr_seq_view(after);
                        assert(Seq::new(i as nat, |j: int| expr_view(before[j])) + (seq![expr_view(after[i as int])] + orig.subrange(i + 1, orig.len() as int)) =~= expr_seq_view(after));
                    }
                    return Some(Err(e));
                },
                Some(Ok(())) => {
                    proof {
                        assert(Seq::new(i as nat, |j: int| expr_view(before[j])) + seq![expr_view(after[i as int])] =~= Seq::new((i + 1) as nat, |j: int| expr_view(after[j])));
                        assert forall|s: Seq<ExprView>| true implies Seq::new(i as nat, |j: int| expr_view(before[j])) + (seq![expr_view(after[i as int])] + s) == Seq::new((i + 1) as nat, |j: int| expr_view(after[j])) + s by {
                            assert(Seq::new(i as nat, |j: int| expr_view(before[j])) + (seq![expr_view(after[i as int])] + s) =~= (Seq::new(i as nat, |j: int| expr_view(before[j])) + seq![expr_view(after[i as int])]) + s);
                        }
                    }
                },
            }
            i = i + 1;
        }
        proof {
            lemma_expr_seq_view(args@);
            assert(Seq::new(i as nat, |j: int| expr_view(args@[j])) =~= expr_seq_view(args@));
            assert(Seq::new(i as nat, |j: int| expr_view(args@[j])) + Seq::<ExprView>::empty() =~= expr_seq_view(args@));
        }
        Some(Ok(()))
    }

    fn check_const_decls(&mut self, v: &mut Vec<(Type, Identifier, Expression)>) -> (r: Option<Result<(), SemanticError>>)
        requires
            old(self).wf(),
        ensures
            final(self).wf(),
            final(v)@.len() == old(v)@.len(),
            r is None <==> spec_const_decls(old(self)@, const_decl_view(old(v)@), 0) is None,
            r matches Some(res) ==> spec_const_decls(old(self)@, const_decl_view(old(v)@), 0)
                == Some((res_view(res), const_decl_view(final(v)@), final(self)@)),
    {
        let ghost orig = const_decl_view(v@);
        let ghost st0 = self@;
        let mut i: usize = 0;
        while i < v.len()
            invariant
                self.wf(),
                v@.len() == old(v)@.len(),
                orig == const_decl_view(old(v)@),
                st0 == old(self)@,
                i <= v@.len(),
                forall|j: int| i <= j < v@.len() ==> v@[j] == old(v)@[j],
                spec_const_decls(st0, orig, 0) == prepend_list(const_decl_view(v@).take(i as int), spec_const_decls(self@, orig, i as int)),
            decreases v@.len() - i,
        {
            let ghost before = v@;
            assert(orig[i as int] == (before[i as int].0@, before[i as int].1@, before[i as int].2@));
            let entry = &mut v[i];
            match self.check_expression(&mut entry.2) {
                None => {
                    return None;
                },
                Some(Err(e)) => {
                    proof {
                        assert(const_decl_view(before).take(i as int) + (seq![orig[i as int]].update(0, (orig[i as int].0, orig[i as int].1, v@[i as int].2@)) + orig.subrange(i + 1, orig.len() as int)) =~= const_decl_view(v@));
                    }
                    return Some(Err(e));
                },
                Some(Ok(())) => {},
            }
            let info = SymbolInfo {
                qualifier: Qualifier::Const,
                ty: entry.0.duplicate(),
                const_val: entry.2.fold_constant(),
            };
            entry.1.resolve_status = ResolveStatus::Resolved(info.duplicate());
            let name = entry.1.name.clone();
            match self.symtable.add_symbol(name, info) {
                Err(e) => {
                    proof {
                        assert(const_decl_view(before).take(i as int) + (seq![const_decl_view(v@)[i as int]] + orig.subrange(i + 1, orig.len() as int)) =~= const_decl_view(v@));
                    }
                    return Some(Err(SemanticError::SymbolTableError(e)));
                },
                Ok(()) => {},
            }
            proof {
                assert(const_decl_view(before).take(i as int) + seq![const_decl_view(v@)[i as int]] =~= const_decl_view(v@).take(i + 1));
                assert forall|s: Seq<(SpecType, IdentifierView, ExprView)>| true implies const_decl_view(before).take(i as int) + (seq![const_decl_view(v@)[i as int]] + s) == const_decl_view(v@).take(i + 1) + s by {
                    assert(const_decl_view(before).take(i as int) + (seq![const_decl_view(v@)[i as int]] + s) =~= (const_decl_view(before).take(i as int) + seq![const_decl_view(v@)[i as int]]) + s);
                }
            }
            i = i + 1;
        }
        proof {
            assert(const_decl_view(v@).take(i as int) + Seq::empty() =~= const_decl_view(v@));
        }
        Some(Ok(()))
    }

    fn check_opt_expression(&self, oe: &mut Option<Expression>) -> (r: Option<Result<(), SemanticError>>)
        requires
            self.wf(),
        ensures
            r is None <==> spec_check_opt_expr(self@.scopes, opt_expr_view(*old(oe))) is None,
            r matches Some(res) ==> spec_check_opt_expr(self@.scopes, opt_expr_view(*old(oe))) == Some((res_view(res), opt_expr_view(*final(oe)))),
    {
        match oe {
            Some(e) => self.check_expression(e),
            None => Some(Ok(())),
        }
    }

    fn check_var_decls(&mut self, v: &mut Vec<(Type, Identifier, Option<Expression>)>) -> (r: Option<Result<(), SemanticError>>)
        requires
            old(self).wf(),
        ensures
            final(self).wf(),
            final(v)@.len() == old(v)@.len(),
            r is None <==> spec_var_decls(old(self)@, var_decl_view(old(v)@), 0) is None,
            r matches Some(res) ==> spec_var_decls(old(self)@, var_decl_view(old(v)@), 0)
                == Some((res_view(res), var_decl_view(final(v)@), final(self)@)),
    {
        let ghost orig = var_decl_view(v@);
        let ghost st0 = self@;
        let mut i: usize = 0;
        while i < v.len()
            invariant
                self.wf(),
                v@.len() == old(v)@.len(),
                orig == var_decl_view(old(v)@),
                st0 == old(self)@,
                i <= v@.len(),
                forall|j: int| i <= j < v@.len() ==> v@[j] == old(v)@[j],
                spec_var_decls(st0, orig, 0) == prepend_list(var_decl_view(v@).take(i as int), spec_var_decls(self@, orig, i as int)),
            decreases v@.len() - i,
        {
            let ghost before = v@;
            assert(orig[i as int] == (before[i as int].0@, before[i as int].1@, opt_expr_view(before[i as int].2)));
            let entry = &mut v[i];
            match self.check_opt_expression(&mut entry.2) {
                None => {
                    return None;
                },
                Some(Err(e)) => {
                    proof {
                        assert(var_decl_view(before).take(i as int) + (seq![orig[i as int]].update(0, (orig[i as int].0, orig[i as int].1, opt_expr_view(v@[i as int].2))) + orig.subrange(i + 1, orig.len() as int)) =~= var_decl_view(v@));
                    }
                    return Some(Err(e));
                },
                Some(Ok(())) => {},
            }
            let info = SymbolInfo { qualifier: Qualifier::Var, ty: entry.0.duplicate(), const_val: None };
            entry.1.resolve_status = ResolveStatus::Resolved(info.duplicate());
            let name = entry.1.name.clone();
            match self.symtable.add_symbol(name, info) {
                Err(e) => {
                    proof {
                        assert(var_decl_view(before).take(i as int) + (seq![var_decl_view(v@)[i as int]] + orig.subrange(i + 1, orig.len() as int)) =~= var_decl_view(v@));
                    }
                    return Some(Err(SemanticError::SymbolTableError(e)));
                },
                Ok(()) => {},
            }
            proof {
                assert(var_decl_view(before).take(i as int) + seq![var_decl_view(v@)[i as int]] =~= var_decl_view(v@).take(i + 1));
                assert forall|s: Seq<(SpecType, IdentifierView, Option<ExprView>)>| true implies var_decl_view(before).take(i as int) + (seq![var_decl_view(v@)[i as int]] + s) == var_decl_view(v@).take(i + 1) + s by {
                    assert(var_decl_view(before).take(i as int) + (seq![var_decl_view(v@)[i as int]] + s) =~= (var_decl_view(before).take(i as int) + seq![var_decl_view(v@)[i as int]]) + s);
                }
            }
            i = i + 1;
        }
        proof {
            assert(var_decl_view(v@).take(i as int) + Seq::empty() =~= var_decl_view(v@));
        }
        Some(Ok(()))
    }

    fn leave_scope(&mut self) -> (r: Result<(), SemanticError>)
        requires
            old(self).wf(),
        ensures
            final(self).wf(),
            (res_view(r), final(self)@) == exit(old(self)@),
    {
        proof {
            self.symtable.lemma_wf_nonempty();
        }
        match self.symtable.exit_scope() {
            Ok(t) => {
                self.symtable = t;
                Ok(())
            },
            Err(e) => Err(SemanticError::SymbolTableError(e)),
        }
    }

    fn enter_new_scope(&mut self)
        requires
            old(self).wf(),
        ensures
            final(self).wf(),
            final(self)@ == enter(old(self)@),
    {
        self.symtable = self.symtable.enter_scope();
    }

    fn check_statement(&mut self, stmt: &mut Statement) -> (r: Option<Result<(), SemanticError>>)
        requires
            old(self).wf(),
        ensures
            final(self).wf(),
            r is None <==> spec_check_stmt(old(self)@, old(stmt)@) is None,
            r matches Some(res) ==> spec_check_stmt(old(self)@, old(stmt)@) == Some((res_view(res), final(stmt)@, final(self)@)),
            r is Some ==> final(self)@.depth == old(self)@.depth,
        decreases *old(stmt), 0int,
    {
        proof {
            lemma_depth_stmt(self@, stmt@);
        }
        match stmt {
            Statement::Return(e) => self.check_expression(e),
            Statement::ConstDecl(v) => self.check_const_decls(v),
            Statement::VarDecl(v) => self.check_var_decls(v),
            Statement::Assign(lval, e) => match self.symtable.find_symbol(&lval.name) {
                Err(x) => Some(Err(SemanticError::SymbolTableError(x))),
                Ok(info) => {
                    if info.is_const_val() {
                        return Some(Err(SemanticError::ConstValueError));
                    }
                    match self.check_expression(e) {
                        None => None,
                        Some(Err(x)) => Some(Err(x)),
                        Some(Ok(())) => {
                            lval.resolve_status = ResolveStatus::Resolved(info);
                            Some(Ok(()))
                        },
                    }
                },
            },
            Statement::Expression(oe) => self.check_opt_expression(oe),
            Statement::Block(ss) => {
                self.enter_new_scope();
                match self.check_block(ss) {
                    None => None,
                    Some(Err(x)) => Some(Err(x)),
                    Some(Ok(())) => Some(self.leave_scope()),
                }
            },
            Statement::If(c, t, e) => {
                match self.check_expression(c) {
                    None => {
                        return None;
                    },
                    Some(Err(x)) => {
                        return Some(Err(x));
                    },
                    Some(Ok(())) => {},
                }
                self.enter_new_scope();
                match self.check_statement(t) {
                    None => {
                        return None;
                    },
                    Some(Err(x)) => {
                        return Some(Err(x));
                    },
                    Some(Ok(())) => {},
                }
                match self.leave_scope() {
                    Err(x) => {
                        return Some(Err(x));
                    },
                    Ok(()) => {},
                }
                match e {
                    None => Some(Ok(())),
                    Some(eb) => {
                        self.enter_new_scope();
                        match self.check_statement(eb) {
                            None => None,
                            Some(Err(x)) => Some(Err(x)),
                            Some(Ok(())) => Some(self.leave_scope()),
                        }
                    },
                }
            },
            Statement::While(c, b) => {
                match self.check_expression(c) {
                    None => {
                        return None;
                    },
                    Some(Err(x)) => {
                        return Some(Err(x));
                    },
                    Some(Ok(())) => {},
                }
                self.enter_new_scope();
                self.while_depth = self.while_depth.wrapping_add(1);
                match self.check_statement(b) {
                    None => None,
                    Some(Err(x)) => {
                        self.while_depth = self.while_depth.wrapping_sub(1);
                        Some(Err(x))
                    },
                    Some(Ok(())) => {
                        self.while_depth = self.while_depth.wrapping_sub(1);
                        Some(self.leave_scope())
                    },
                }
            },
            Statement::Break => if self.while_depth == 0 {
                Some(Err(SemanticError::BreakError))
            } else {
                Some(Ok(()))
            },
            Statement::Continue => if self.while_depth == 0 {
                Some(Err(SemanticError::ContinueError))
            } else {
                Some(Ok(()))
            },
        }
    }

    fn check_block(&mut self, ss: &mut Vec<Box<Statement>>) -> (r: Option<Result<(), SemanticError>>)
        requires
            old(self).wf(),
        ensures
            final(self).wf(),
            final(ss)@.len() == old(ss)@.len(),
            r is None <==> spec_check_block(old(self)@, stmt_seq_view(old(ss)@), 0) is None,
            r matches Some(res) ==> spec_check_block(old(self)@, stmt_seq_view(old(ss)@), 0)
                == Some((res_view(res), stmt_seq_view(final(ss)@), final(self)@)),
        decreases *old(ss), 1int,
    {
        let ghost orig = stmt_seq_view(ss@);
        let ghost st0 = self@;
        proof {
            lemma_stmt_seq_view(ss@);
        }
        let mut i: usize = 0;
        while i < ss.len()
            invariant
                self.wf(),
                ss@.len() == old(ss)@.len(),
                orig == stmt_seq_view(old(ss)@),
                orig.len() == ss@.len(),
                st0 == old(self)@,
                i <= ss@.len(),
                forall|j: int| i <= j < ss@.len() ==> ss@[j] == old(ss)@[j],
                forall|j: int| 0 <= j < ss@.len() ==> orig[j] == stmt_view(*old(ss)@[j]),
                spec_check_block(st0, orig, 0) == prepend_list(
                    Seq::new(i as nat, |j: int| stmt_view(*ss@[j])),
                    spec_check_block(self@, orig, i as int),
                ),
            decreases ss@.len() - i,
        {
            let ghost before = ss@;
            proof {
                assert(decreases_to!(*old(ss) => old(ss)@));
                assert(decreases_to!(old(ss)@ => old(ss)@[i as int]));
            }
            assert(orig[i as int] == stmt_view(*before[i as int]));
            let r = self.check_statement(&mut ss[i]);
            let ghost after = ss@;
            match r {
                None => {
                    return None;
                },
                Some(Err(e)) => {
                    proof {
                        lemma_stmt_seq_view(after);
                        assert(Seq::new(i as nat, |j: int| stmt_view(*before[j])) + (seq![stmt_view(*after[i as int])] + orig.subrange(i + 1, orig.len() as int)) =~= stmt_seq_view(after));
                    }
                    return Some(Err(e));
                },
                Some(Ok(())) => {
                    proof {
                        assert(Seq::new(i as nat, |j: int| stmt_view(*before[j])) + seq![stmt_view(*after[i as int])] =~= Seq::new((i + 1) as nat, |j: int| stmt_view(*after[j])));
                        assert forall|s: Seq<StmtView>| true implies Seq::new(i as nat, |j: int| stmt_view(*before[j])) + (seq![stmt_view(*after[i as int])] + s) == Seq::new((i + 1) as nat, |j: int| stmt_view(*after[j])) + s by {
                            assert(Seq::new(i as nat, |j: int| stmt_view(*before[j])) + (seq![stmt_view(*after[i as int])] + s) =~= (Seq::new(i as nat, |j: int| stmt_view(*before[j])) + seq![stmt_view(*after[i as int])]) + s);
                        }
                    }
                },
            }
            i = i + 1;
        }
        proof {
            lemma_stmt_seq_view(ss@);
            assert(Seq::new(i as nat, |j: int| stmt_view(*ss@[j])) + Seq::<StmtView>::empty() =~= stmt_seq_view(ss@));
        }
        Some(Ok(()))
    }


    fn check_params(&mut self, ps: &mut Vec<(Identifier, Type)>) -> (r: Result<(), SemanticError>)
        requires
            old(self).wf(),
        ensures
            final(self).wf(),
            final(ps)@.len() == old(ps)@.len(),
            spec_check_params(old(self)@, fparams_view(old(ps)@), 0) == (res_view(r), fparams_view(final(ps)@), final(self)@),
    {
        let ghost orig = fparams_view(ps@);
        let ghost st0 = self@;
        let mut i: usize = 0;
        while i < ps.len()
            invariant
                self.wf(),
                ps@.len() == old(ps)@.len(),
                orig == fparams_view(old(ps)@),
                st0 == old(self)@,
                i <= ps@.len(),
                forall|j: int| i <= j < ps@.len() ==> ps@[j] == old(ps)@[j],
                ({
                    let (r, rest, st) = spec_check_params(self@, orig, i as int);
                    spec_check_params(st0, orig, 0) == (r, fparams_view(ps@).take(i as int) + rest, st)
                }),
            decreases ps@.len() - i,
        {
            let ghost before = ps@;
            assert(orig[i as int] == (before[i as int].0@, before[i as int].1@));
            let entry = &mut ps[i];
            let info = SymbolInfo { qualifier: Qualifier::Var, ty: entry.1.duplicate(), const_val: None };
            match self.symtable.add_symbol(entry.0.name.clone(), info.duplicate()) {
                Err(e) => {
                    proof {
                        assert(fparams_view(before).take(i as int) + orig.subrange(i as int, orig.len() as int) =~= fparams_view(ps@));
                    }
                    return Err(SemanticError::SymbolTableError(e));
                },
                Ok(()) => {},
            }
            entry.0.resolve_status = ResolveStatus::Resolved(info);
            proof {
                assert(fparams_view(before).take(i as int) + seq![fparams_view(ps@)[i as int]] =~= fparams_view(ps@).take(i + 1));
                assert forall|s: Seq<(IdentifierView, SpecType)>| true implies fparams_view(before).take(i as int) + (seq![fparams_view(ps@)[i as int]] + s) == fparams_view(ps@).take(i + 1) + s by {
                    assert(fparams_view(before).take(i as int) + (seq![fparams_view(ps@)[i as int]] + s) =~= (fparams_view(before).take(i as int) + seq![fparams_view(ps@)[i as int]]) + s);
                }
            }
            i = i + 1;
        }
        proof {
            assert(fparams_view(ps@).take(i as int) + Seq::empty() =~= fparams_view(ps@));
        }
        Ok(())
    }

    fn check_stmts(&mut self, ss: &mut Vec<Statement>) -> (r: Option<Result<(), SemanticError>>)
        requires
            old(self).wf(),
        ensures
            final(self).wf(),
            final(ss)@.len() == old(ss)@.len(),
            r is None <==> spec_check_block(old(self)@, body_view(old(ss)@), 0) is None,
            r matches Some(res) ==> spec_check_block(old(self)@, body_view(old(ss)@), 0)
                == Some((res_view(res), body_view(final(ss)@), final(self)@)),
    {
        let ghost orig = body_view(ss@);
        let ghost st0 = self@;
        let mut i: usize = 0;
        while i < ss.len()
            invariant
                self.wf(),
                ss@.len() == old(ss)@.len(),
                orig == body_view(old(ss)@),
                st0 == old(self)@,
                i <= ss@.len(),
                forall|j: int| i <= j < ss@.len() ==> ss@[j] == old(ss)@[j],
                spec_check_block(st0, orig, 0) == prepend_list(body_view(ss@).take(i as int), spec_check_block(self@, orig, i as int)),
            decreases ss@.len() - i,
        {
            let ghost before = ss@;
            assert(orig[i as int] == before[i as int]@);
            let r = self.check_statement(&mut ss[i]);
            match r {
                None => {
                    return None;
                },
                Some(Err(e)) => {
                    proof {
                        assert(body_view(before).take(i as int) + (seq![body_view(ss@)[i as int]] + orig.subrange(i + 1, orig.len() as int)) =~= body_view(ss@));
                    }
                    return Some(Err(e));
                },
                Some(Ok(())) => {
                    proof {
                        assert(body_view(before).take(i as int) + seq![body_view(ss@)[i as int]] =~= body_view(ss@).take(i + 1));
                        assert forall|s: Seq<StmtView>| true implies body_view(before).take(i as int) + (seq![body_view(ss@)[i as int]] + s) == body_view(ss@).take(i + 1) + s by {
                            assert(body_view(before).take(i as int) + (seq![body_view(ss@)[i as int]] + s) =~= (body_view(before).take(i as int) + seq![body_view(ss@)[i as int]]) + s);
                        }
                    }
                },
            }
            i = i + 1;
        }
        proof {
            assert(body_view(ss@).take(i as int) + Seq::empty() =~= body_view(ss@));
        }
        Some(Ok(()))
    }

    fn check_item(&mut self, item: &mut Item) -> (r: Option<Result<(), SemanticError>>)
        requires
            old(self).wf(),
        ensures
            final(self).wf(),
            r is None <==> spec_check_item(old(self)@, old(item)@) is None,
            r matches Some(res) ==> spec_check_item(old(self)@, old(item)@) == Some((res_view(res), final(item)@, final(self)@)),
    {
        match item {
            Item::FuncDef(f) => {
                let ghost fv = f@;
                let mut pts: Vec<Box<Type>> = Vec::new();
                let mut i: usize = 0;
                while i < f.fparams.len()
                    invariant
                        i <= f.fparams@.len(),
                        pts@.len() == i,
                        forall|j: int| 0 <= j < i ==> (*#[trigger] pts@[j])@ == f.fparams@[j].1@,
                    decreases f.fparams@.len() - i,
                {
                    pts.push(Box::new(f.fparams[i].1.duplicate()));
                    i = i + 1;
                }
                proof {
                    lemma_type_seq_view(pts@);
                    assert(type_seq_view(pts@) =~= fparams_types(fv.fparams));
                }
                let info = SymbolInfo {
                    qualifier: Qualifier::Const,
                    ty: Type::Function(pts, Box::new(f.return_type.duplicate())),
                    const_val: None,
                };
                assert(info@ == func_symbol(fv));
                match self.symtable.add_symbol(f.ident.name.clone(), info.duplicate()) {
                    Err(e) => {
                        return Some(Err(SemanticError::SymbolTableError(e)));
                    },
                    Ok(()) => {},
                }
                f.ident.resolve_status = ResolveStatus::Resolved(info);
                self.enter_new_scope();
                match self.check_params(&mut f.fparams) {
                    Err(e) => {
                        return Some(Err(e));
                    },
                    Ok(()) => {},
                }
                match self.check_stmts(&mut f.body) {
                    None => None,
                    Some(Err(x)) => Some(Err(x)),
                    Some(Ok(())) => Some(self.leave_scope()),
                }
            },
            Item::GlobalVar(s) => self.check_statement(s),
        }
    }

    fn check_items(&mut self, items: &mut Vec<Item>) -> (r: Option<Result<(), SemanticError>>)
        requires
            old(self).wf(),
        ensures
            final(self).wf(),
            r is None <==> spec_check_items(old(self)@, items_view(old(items)@), 0) is None,
            r matches Some(res) ==> spec_check_items(old(self)@, items_view(old(items)@), 0)
                == Some((res_view(res), items_view(final(items)@), final(self)@)),
    {
        let ghost orig = items_view(items@);
        let ghost st0 = self@;
        let mut i: usize = 0;
        while i < items.len()
            invariant
                self.wf(),
                items@.len() == old(items)@.len(),
                orig == items_view(old(items)@),
                st0 == old(self)@,
                i <= items@.len(),
                forall|j: int| i <= j < items@.len() ==> items@[j] == old(items)@[j],
                spec_check_items(st0, orig, 0) == prepend_list(items_view(items@).take(i as int), spec_check_items(self@, orig, i as int)),
            decreases items@.len() - i,
        {
            let ghost before = items@;
            assert(orig[i as int] == before[i as int]@);
            let r = self.check_item(&mut items[i]);
            match r {
                None => {
                    return None;
                },
                Some(Err(e)) => {
                    proof {
                        assert(items_view(before).take(i as int) + (seq![items_view(items@)[i as int]] + orig.subrange(i + 1, orig.len() as int)) =~= items_view(items@));
                    }
                    return Some(Err(e));
                },
                Some(Ok(())) => {
                    proof {
                        assert(items_view(before).take(i as int) + seq![items_view(items@)[i as int]] =~= items_view(items@).take(i + 1));
                        assert forall|s: Seq<ItemView>| true implies items_view(before).take(i as int) + (seq![items_view(items@)[i as int]] + s) == items_view(items@).take(i + 1) + s by {
                            assert(items_view(before).take(i as int) + (seq![items_view(items@)[i as int]] + s) =~= (items_view(before).take(i as int) + seq![items_view(items@)[i as int]]) + s);
                        }
                    }
                },
            }
            i = i + 1;
        }
        proof {
            assert(items_view(items@).take(i as int) + Seq::empty() =~= items_view(items@));
        }
        Some(Ok(()))
    }

    /// Checks a program as [`SemanticChecker::check`] does, but reports with
    /// `None` where that function's `requires` fails: where the program
    /// calls a symbol that is not a function.
    pub fn try_check(&mut self, prog: &mut CompileUnit) -> (r: Option<Result<(), SemanticError>>)
        requires
            old(self).wf(),
        ensures
            final(self).wf(),
            r is None <==> spec_check(old(self)@, old(prog)@) is None,
            r matches Some(res) ==> spec_check(old(self)@, old(prog)@) == Some((res_view(res), final(prog)@, final(self)@)),
    {
        let builtins = get_builtin_functions();
        let ghost bv = entries_view(builtins@);
        let ghost st0 = self@;
        let mut i: usize = 0;
        while i < builtins.len()
            invariant
                self.wf(),
                bv == entries_view(builtins@),
                bv == spec_builtin_functions(),
                st0 == old(self)@,
                i <= builtins@.len(),
                spec_define_all(st0, bv, 0) == spec_define_all(self@, bv, i as int),
            decreases builtins@.len() - i,
        {
            match self.symtable.add_symbol(builtins[i].0.clone(), builtins[i].1.duplicate()) {
                Err(e) => {
                    return Some(Err(SemanticError::SymbolTableError(e)));
                },
                Ok(()) => {},
            }
            i = i + 1;
        }
        self.enter_new_scope();
        match self.check_items(&mut prog.items) {
            None => None,
            Some(Err(x)) => Some(Err(x)),
            Some(Ok(())) => Some(self.leave_scope()),
        }
    }

    /// Runs the semantic check on a program: every identifier is resolved
    /// to its symbol, and the first semantic error is reported. The
    /// runtime library's functions are defined first, in the checker's
    /// current scope.
    pub fn check(&mut self, prog: &mut CompileUnit) -> (r: Result<(), SemanticError>)
        requires
            old(self).wf(),
            spec_check(old(self)@, old(prog)@) is Some,
        ensures
            final(self).wf(),
            spec_check(old(self)@, old(prog)@) == Some((res_view(r), final(prog)@, final(self)@)),
    {
        match self.try_check(prog) {
            Some(r) => r,
            None => {
                proof {
                    assert(false);
                }
                Ok(())
            },
        }
    }

}


/// Every identifier of the expression that the checker resolves is
/// resolved: those used as values, and those in the arguments of calls
/// (the name of the function called is kept as written).
pub open spec fn expr_resolved(e: ExprView) -> bool
    decreases e, 0int,
{
    match e {
        ExprView::IntLit(_) => true,
        ExprView::Ident(id) => id.status is Resolved,
        ExprView::Unary(_, b) => expr_resolved(*b),
        ExprView::Binary(l, _, r) => expr_resolved(*l) && expr_resolved(*r),
        ExprView::Call(_, args) => args_resolved(args),
    }
}

/// Every argument is resolved.
pub open spec fn args_resolved(args: Seq<ExprView>) -> bool
    decreases args, 1int,
{
    if args.len() == 0 {
        true
    } else {
        expr_resolved(args[0]) && args_resolved(args.subrange(1, args.len() as int))
    }
}

/// Every initialiser of a constant declaration is resolved, and every name
/// it declares is resolved to a constant of the declared type that holds
/// the compile-time value of its initialiser (as resolved), where that
/// value exists.
pub open spec fn consts_resolved(v: Seq<(SpecType, IdentifierView, ExprView)>) -> bool
    decreases v.len(),
{
    if v.len() == 0 {
        true
    } else {
        &&& v[0].1.status matches ResolveStatusView::Resolved(info)
            && info.qualifier == Qualifier::Const
            && info.ty == v[0].0
            && info.const_val == spec_fold(v[0].2)
        &&& expr_resolved(v[0].2)
        &&& consts_resolved(v.subrange(1, v.len() as int))
    }
}

/// Every name declared and every initialiser of a variable declaration is
/// resolved.
pub open spec fn vars_resolved(v: Seq<(SpecType, IdentifierView, Option<ExprView>)>) -> bool
    decreases v.len(),
{
    if v.len() == 0 {
        true
    } else {
        v[0].1.status is Resolved && (match v[0].2 {
            Some(e) => expr_resolved(e),
            None => true,
        }) && vars_resolved(v.subrange(1, v.len() as int))
    }
}

/// Every identifier of the statement is resolved.
pub open spec fn stmt_resolved(s: StmtView) -> bool
    decreases s, 0int,
{
    match s {
        StmtView::Return(e) => expr_resolved(e),
        StmtView::ConstDecl(v) => consts_resolved(v),
        StmtView::VarDecl(v) => vars_resolved(v),
        StmtView::Assign(lval, e) => lval.status is Resolved && expr_resolved(e),
        StmtView::Expression(oe) => match oe {
            Some(e) => expr_resolved(e),
            None => true,
        },
        StmtView::Block(ss) => block_resolved(ss),
        StmtView::If(c, t, e) => expr_resolved(c) && stmt_resolved(*t) && match e {
            Some(b) => stmt_resolved(*b),
            None => true,
        },
        StmtView::While(c, b) => expr_resolved(c) && stmt_resolved(*b),
        StmtView::Break => true,
        StmtView::Continue => true,
    }
}

/// Every statement is resolved.
pub open spec fn block_resolved(ss: Seq<StmtView>) -> bool
    decreases ss, 1int,
{
    if ss.len() == 0 {
        true
    } else {
        stmt_resolved(ss[0]) && block_resolved(ss.subrange(1, ss.len() as int))
    }
}

/// Every parameter is resolved.
pub open spec fn params_resolved(ps: Seq<(IdentifierView, SpecType)>) -> bool {
    forall|i: int| 0 <= i < ps.len() ==> (#[trigger] ps[i]).0.status is Resolved
}

/// Every identifier of the item is resolved: a function's name, its
/// parameters and its body; a global declaration.
pub open spec fn item_resolved(it: ItemView) -> bool {
    match it {
        ItemView::FuncDef(f) => f.ident.status is Resolved && params_resolved(f.fparams) && block_resolved(f.body),
        ItemView::GlobalVar(s) => stmt_resolved(s),
    }
}

/// Every item is resolved.
pub open spec fn items_resolved(items: Seq<ItemView>) -> bool {
    forall|i: int| 0 <= i < items.len() ==> item_resolved(#[trigger] items[i])
}

proof fn lemma_expr_resolved(sc: Seq<Map<Seq<char>, SymbolInfoView>>, e: ExprView)
    ensures
        spec_check_expr(sc, e) matches Some((Ok(()), e2)) ==> expr_resolved(e2),
    decreases e, 0int,
{
    match e {
        ExprView::Unary(_, b) => {
            lemma_expr_resolved(sc, *b);
        },
        ExprView::Binary(l, _, r) => {
            lemma_expr_resolved(sc, *l);
            lemma_expr_resolved(sc, *r);
        },
        ExprView::Call(_, args) => {
            lemma_args_resolved(sc, args, 0);
        },
        _ => {},
    }
}

proof fn lemma_args_resolved(sc: Seq<Map<Seq<char>, SymbolInfoView>>, args: Seq<ExprView>, i: int)
    ensures
        spec_check_args(sc, args, i) matches Some((Ok(()), rest)) ==> args_resolved(rest),
    decreases args, args.len() - i,
{
    if 0 <= i < args.len() {
        lemma_expr_resolved(sc, args[i]);
        lemma_args_resolved(sc, args, i + 1);
        if let Some((Ok(()), a2)) = spec_check_expr(sc, args[i]) {
            if let Some((Ok(()), rest)) = spec_check_args(sc, args, i + 1) {
                assert((seq![a2] + rest).subrange(1, (seq![a2] + rest).len() as int) =~= rest);
            }
        }
    }
}

proof fn lemma_consts_resolved(st: CheckState, v: Seq<(SpecType, IdentifierView, ExprView)>, i: int)
    ensures
        spec_const_decls(st, v, i) matches Some((Ok(()), rest, _)) ==> consts_resolved(rest),
    decreases v.len() - i,
{
    if 0 <= i < v.len() {
        let (ty, id, e) = v[i];
        lemma_expr_resolved(st.scopes, e);
        if let Some((Ok(()), e2)) = spec_check_expr(st.scopes, e) {
            let info = SymbolInfoView { qualifier: Qualifier::Const, ty: ty, const_val: spec_fold(e2) };
            let (r, st2) = define(st, id.name, info);
            lemma_consts_resolved(st2, v, i + 1);
            if let Some((Ok(()), rest, _)) = spec_const_decls(st2, v, i + 1) {
                let x = seq![(ty, resolved(id, info), e2)] + rest;
                assert(x.subrange(1, x.len() as int) =~= rest);
            }
        }
    }
}

proof fn lemma_vars_resolved(st: CheckState, v: Seq<(SpecType, IdentifierView, Option<ExprView>)>, i: int)
    ensures
        spec_var_decls(st, v, i) matches Some((Ok(()), rest, _)) ==> vars_resolved(rest),
    decreases v.len() - i,
{
    if 0 <= i < v.len() {
        let (ty, id, oe) = v[i];
        if let Some(e) = oe {
            lemma_expr_resolved(st.scopes, e);
        }
        if let Some((Ok(()), oe2)) = spec_check_opt_expr(st.scopes, oe) {
            let info = SymbolInfoView { qualifier: Qualifier::Var, ty: ty, const_val: None };
            let (r, st2) = define(st, id.name, info);
            lemma_vars_resolved(st2, v, i + 1);
            if let Some((Ok(()), rest, _)) = spec_var_decls(st2, v, i + 1) {
                let x = seq![(ty, resolved(id, info), oe2)] + rest;
                assert(x.subrange(1, x.len() as int) =~= rest);
            }
        }
    }
}

#[verifier::rlimit(60)]
proof fn lemma_stmt_resolved(st: CheckState, s: StmtView)
    ensures
        spec_check_stmt(st, s) matches Some((Ok(()), s2, _)) ==> stmt_resolved(s2),
    decreases s, 0int,
{
    match s {
        StmtView::Return(e) => {
            lemma_expr_resolved(st.scopes, e);
        },
        StmtView::ConstDecl(v) => {
            lemma_consts_resolved(st, v, 0);
        },
        StmtView::VarDecl(v) => {
            lemma_vars_resolved(st, v, 0);
        },
        StmtView::Assign(_, e) => {
            lemma_expr_resolved(st.scopes, e);
        },
        StmtView::Expression(oe) => {
            if let Some(e) = oe {
                lemma_expr_resolved(st.scopes, e);
            }
        },
        StmtView::Block(ss) => {
            lemma_block_resolved(enter(st), ss, 0);
        },
        StmtView::If(c, t, e) => {
            lemma_expr_resolved(st.scopes, c);
            lemma_stmt_resolved(enter(st), *t);
            if let Some((Ok(()), t2, st2)) = spec_check_stmt(enter(st), *t) {
                if let Some(eb) = e {
                    lemma_stmt_resolved(enter(exit(st2).1), *eb);
                }
            }
        },
        StmtView::While(c, b) => {
            lemma_expr_resolved(st.scopes, c);
            lemma_stmt_resolved(CheckState { scopes: st.scopes.push(Map::empty()), depth: st.depth.wrapping_add(1) }, *b);
        },
        _ => {},
    }
}

proof fn lemma_block_resolved(st: CheckState, ss: Seq<StmtView>, i: int)
    ensures
        spec_check_block(st, ss, i) matches Some((Ok(()), rest, _)) ==> block_resolved(rest),
    decreases ss, ss.len() - i,
{
    if 0 <= i < ss.len() {
        lemma_stmt_resolved(st, ss[i]);
        if let Some((Ok(()), s2, st2)) = spec_check_stmt(st, ss[i]) {
            lemma_block_resolved(st2, ss, i + 1);
            if let Some((Ok(()), rest, _)) = spec_check_block(st2, ss, i + 1) {
                let x = seq![s2] + rest;
                assert(x.subrange(1, x.len() as int) =~= rest);
            }
        }
    }
}

proof fn lemma_params_resolved(st: CheckState, ps: Seq<(IdentifierView, SpecType)>, i: int)
    ensures
        spec_check_params(st, ps, i).0 is Ok ==> params_resolved(spec_check_params(st, ps, i).1),
    decreases ps.len() - i,
{
    if 0 <= i < ps.len() {
        let (id, ty) = ps[i];
        let info = SymbolInfoView { qualifier: Qualifier::Var, ty: ty, const_val: None };
        let (r, st2) = define(st, id.name, info);
        if r is Ok {
            lemma_params_resolved(st2, ps, i + 1);
            let rest = spec_check_params(st2, ps, i + 1).1;
            let x = seq![(resolved(id, info), ty)] + rest;
            if spec_check_params(st2, ps, i + 1).0 is Ok {
                assert forall|k: int| 0 <= k < x.len() implies (#[trigger] x[k]).0.status is Resolved by {
                    if k > 0 {
                        assert(x[k] == rest[k - 1]);
                    }
                }
            }
        }
    }
}

proof fn lemma_items_resolved(st: CheckState, items: Seq<ItemView>, i: int)
    ensures
        spec_check_items(st, items, i) matches Some((Ok(()), rest, _)) ==> items_resolved(rest),
    decreases items.len() - i,
{
    if 0 <= i < items.len() {
        match items[i] {
            ItemView::FuncDef(f) => {
                let info = func_symbol(f);
                let (r, st1) = define(st, f.ident.name, info);
                lemma_params_resolved(enter(st1), f.fparams, 0);
                let (rp, ps2, st2) = spec_check_params(enter(st1), f.fparams, 0);
                lemma_block_resolved(st2, f.body, 0);
            },
            ItemView::GlobalVar(s) => {
                lemma_stmt_resolved(st, s);
            },
        }
        if let Some((Ok(()), it2, st2)) = spec_check_item(st, items[i]) {
            assert(item_resolved(it2));
            lemma_items_resolved(st2, items, i + 1);
            if let Some((Ok(()), rest, _)) = spec_check_items(st2, items, i + 1) {
                let x = seq![it2] + rest;
                assert forall|k: int| 0 <= k < x.len() implies item_resolved(#[trigger] x[k]) by {
                    if k > 0 {
                        assert(x[k] == rest[k - 1]);
                    }
                }
            }
        }
    }
}

/// A program that checks without error has every identifier resolved: the
/// names it declares, the parameters, and every use of a name as a value
/// (the name of a function called is kept as written). Every constant it
/// declares, global or local, holds the compile-time value of its
/// initialiser as resolved in the checked program: with `const a = 1;
/// const b = a + 1;`, `b` holds the value of `a + 1` where `a` stands for
/// the constant that holds 1.
pub proof fn law_checked_program_resolved(st: CheckState, prog: Seq<ItemView>)
    ensures
        spec_check(st, prog) matches Some((Ok(()), p2, _)) ==> items_resolved(p2),
{
    let (rb, st1) = spec_define_all(st, spec_builtin_functions(), 0);
    lemma_items_resolved(enter(st1), prog, 0);
}

/// `break` and `continue` outside every `while` are refused, and leave the
/// checker's state as it was.
pub proof fn law_jump_outside_loop_refused(st: CheckState)
    requires
        st.depth == 0,
    ensures
        spec_check_stmt(st, StmtView::Break) == Some((Err::<(), SemanticErrorView>(SemanticErrorView::BreakError), StmtView::Break, st)),
        spec_check_stmt(st, StmtView::Continue) == Some((Err::<(), SemanticErrorView>(SemanticErrorView::ContinueError), StmtView::Continue, st)),
{
}


/// `b` has as many scopes as `a`, the same scopes outside the innermost
/// one, and the same loop depth.
pub open spec fn balanced(a: CheckState, b: CheckState) -> bool {
    b.scopes.len() == a.scopes.len() && b.scopes.drop_last() == a.scopes.drop_last() && b.depth == a.depth
}

proof fn lemma_define_balanced(st: CheckState, name: Seq<char>, info: SymbolInfoView)
    requires
        st.scopes.len() >= 1,
    ensures
        balanced(st, define(st, name, info).1),
{
    assert(scopes_add(st.scopes, name, info).drop_last() =~= st.scopes.drop_last());
}

proof fn lemma_enter_drop(st: CheckState)
    ensures
        enter(st).scopes.drop_last() == st.scopes,
{
    assert(enter(st).scopes.drop_last() =~= st.scopes);
}

proof fn lemma_consts_balanced(st: CheckState, v: Seq<(SpecType, IdentifierView, ExprView)>, i: int)
    requires
        st.scopes.len() >= 1,
    ensures
        spec_const_decls(st, v, i) matches Some((Ok(()), _, st2)) ==> balanced(st, st2),
    decreases v.len() - i,
{
    if 0 <= i < v.len() {
        let (ty, id, e) = v[i];
        if let Some((Ok(()), e2)) = spec_check_expr(st.scopes, e) {
            let info = SymbolInfoView { qualifier: Qualifier::Const, ty: ty, const_val: spec_fold(e2) };
            let (r, st2) = define(st, id.name, info);
            lemma_define_balanced(st, id.name, info);
            lemma_consts_balanced(st2, v, i + 1);
        }
    }
}

proof fn lemma_vars_balanced(st: CheckState, v: Seq<(SpecType, IdentifierView, Option<ExprView>)>, i: int)
    requires
        st.scopes.len() >= 1,
    ensures
        spec_var_decls(st, v, i) matches Some((Ok(()), _, st2)) ==> balanced(st, st2),
    decreases v.len() - i,
{
    if 0 <= i < v.len() {
        let (ty, id, oe) = v[i];
        if let Some((Ok(()), oe2)) = spec_check_opt_expr(st.scopes, oe) {
            let info = SymbolInfoView { qualifier: Qualifier::Var, ty: ty, const_val: None };
            let (r, st2) = define(st, id.name, info);
            lemma_define_balanced(st, id.name, info);
            lemma_vars_balanced(st2, v, i + 1);
        }
    }
}

#[verifier::rlimit(60)]
proof fn lemma_stmt_balanced(st: CheckState, s: StmtView)
    requires
        st.scopes.len() >= 1,
    ensures
        spec_check_stmt(st, s) matches Some((Ok(()), _, st2)) ==> balanced(st, st2),
    decreases s, 0int,
{
    match s {
        StmtView::ConstDecl(v) => {
            lemma_consts_balanced(st, v, 0);
        },
        StmtView::VarDecl(v) => {
            lemma_vars_balanced(st, v, 0);
        },
        StmtView::Block(ss) => {
            lemma_enter_drop(st);
            lemma_block_balanced(enter(st), ss, 0);
        },
        StmtView::If(c, t, e) => {
            lemma_enter_drop(st);
            lemma_stmt_balanced(enter(st), *t);
            if let Some((Ok(()), t2, st2)) = spec_check_stmt(enter(st), *t) {
                if let Some(eb) = e {
                    lemma_enter_drop(exit(st2).1);
                    lemma_stmt_balanced(enter(exit(st2).1), *eb);
                }
            }
        },
        StmtView::While(c, b) => {
            assert(st.scopes.push(Map::empty()).drop_last() =~= st.scopes);
            lemma_stmt_balanced(CheckState { scopes: st.scopes.push(Map::empty()), depth: st.depth.wrapping_add(1) }, *b);
        },
        _ => {},
    }
}

proof fn lemma_block_balanced(st: CheckState, ss: Seq<StmtView>, i: int)
    requires
        st.scopes.len() >= 1,
    ensures
        spec_check_block(st, ss, i) matches Some((Ok(()), _, st2)) ==> balanced(st, st2),
    decreases ss, ss.len() - i,
{
    if 0 <= i < ss.len() {
        lemma_stmt_balanced(st, ss[i]);
        if let Some((Ok(()), s2, st2)) = spec_check_stmt(st, ss[i]) {
            lemma_block_balanced(st2, ss, i + 1);
        }
    }
}

proof fn lemma_params_balanced(st: CheckState, ps: Seq<(IdentifierView, SpecType)>, i: int)
    requires
        st.scopes.len() >= 1,
    ensures
        balanced(st, spec_check_params(st, ps, i).2),
    decreases ps.len() - i,
{
    if 0 <= i < ps.len() {
        let (id, ty) = ps[i];
        let info = SymbolInfoView { qualifier: Qualifier::Var, ty: ty, const_val: None };
        let (r, st2) = define(st, id.name, info);
        lemma_define_balanced(st, id.name, info);
        if r is Ok {
            lemma_params_balanced(st2, ps, i + 1);
        }
    }
}

proof fn lemma_items_balanced(st: CheckState, items: Seq<ItemView>, i: int)
    requires
        st.scopes.len() >= 1,
    ensures
        spec_check_items(st, items, i) matches Some((Ok(()), _, st2)) ==> balanced(st, st2),
    decreases items.len() - i,
{
    if 0 <= i < items.len() {
        match items[i] {
            ItemView::FuncDef(f) => {
                let info = func_symbol(f);
                let (r, st1) = define(st, f.ident.name, info);
                lemma_define_balanced(st, f.ident.name, info);
                lemma_enter_drop(st1);
                lemma_params_balanced(enter(st1), f.fparams, 0);
                let (rp, ps2, st2) = spec_check_params(enter(st1), f.fparams, 0);
                lemma_block_balanced(st2, f.body, 0);
            },
            ItemView::GlobalVar(s) => {
                lemma_stmt_balanced(st, s);
            },
        }
        if let Some((Ok(()), it2, st2)) = spec_check_item(st, items[i]) {
            lemma_items_balanced(st2, items, i + 1);
        }
    }
}

proof fn lemma_define_all_balanced(st: CheckState, entries: Seq<(Seq<char>, SymbolInfoView)>, i: int)
    requires
        st.scopes.len() >= 1,
    ensures
        balanced(st, spec_define_all(st, entries, i).1),
    decreases entries.len() - i,
{
    if 0 <= i < entries.len() {
        let (r, st2) = define(st, entries[i].0, entries[i].1);
        lemma_define_balanced(st, entries[i].0, entries[i].1);
        if r is Ok {
            lemma_define_all_balanced(st2, entries, i + 1);
        }
    }
}

/// A program that checks without error leaves the checker with as many
/// scopes, the same scopes outside the innermost one, and the same `while`
/// depth as it found: every scope entered was left, every `while` body
/// closed.
pub proof fn law_check_balanced(st: CheckState, prog: Seq<ItemView>)
    requires
        st.scopes.len() >= 1,
    ensures
        spec_check(st, prog) matches Some((Ok(()), _, st2)) ==> balanced(st, st2),
{
    lemma_define_all_balanced(st, spec_builtin_functions(), 0);
    let (rb, st1) = spec_define_all(st, spec_builtin_functions(), 0);
    lemma_enter_drop(st1);
    lemma_items_balanced(enter(st1), prog, 0);
}


/// Undoing a wrapping increment gives the number back.
proof fn lemma_wrapping_inc_dec(d: usize)
    ensures
        d.wrapping_add(1).wrapping_sub(1) == d,
{
}

proof fn lemma_depth_consts(st: CheckState, v: Seq<(SpecType, IdentifierView, ExprView)>, i: int)
    ensures
        spec_const_decls(st, v, i) matches Some((_, _, st2)) ==> st2.depth == st.depth,
    decreases v.len() - i,
{
    if 0 <= i < v.len() {
        let (ty, id, e) = v[i];
        if let Some((Ok(()), e2)) = spec_check_expr(st.scopes, e) {
            let info = SymbolInfoView { qualifier: Qualifier::Const, ty: ty, const_val: spec_fold(e2) };
            let (r, st2) = define(st, id.name, info);
            lemma_depth_consts(st2, v, i + 1);
        }
    }
}

proof fn lemma_depth_vars(st: CheckState, v: Seq<(SpecType, IdentifierView, Option<ExprView>)>, i: int)
    ensures
        spec_var_decls(st, v, i) matches Some((_, _, st2)) ==> st2.depth == st.depth,
    decreases v.len() - i,
{
    if 0 <= i < v.len() {
        let (ty, id, oe) = v[i];
        if let Some((Ok(()), oe2)) = spec_check_opt_expr(st.scopes, oe) {
            let info = SymbolInfoView { qualifier: Qualifier::Var, ty: ty, const_val: None };
            let (r, st2) = define(st, id.name, info);
            lemma_depth_vars(st2, v, i + 1);
        }
    }
}

/// Checking a statement, whatever its result, leaves the `while` depth as
/// it found it.
proof fn lemma_depth_stmt(st: CheckState, s: StmtView)
    ensures
        spec_check_stmt(st, s) matches Some((_, _, st2)) ==> st2.depth == st.depth,
    decreases s, 0int,
{
    match s {
        StmtView::ConstDecl(v) => {
            lemma_depth_consts(st, v, 0);
        },
        StmtView::VarDecl(v) => {
            lemma_depth_vars(st, v, 0);
        },
        StmtView::Block(ss) => {
            lemma_depth_block(enter(st), ss, 0);
        },
        StmtView::If(c, t, e) => {
            lemma_depth_stmt(enter(st), *t);
            if let Some((Ok(()), t2, st2)) = spec_check_stmt(enter(st), *t) {
                if let Some(eb) = e {
                    lemma_depth_stmt(enter(exit(st2).1), *eb);
                }
            }
        },
        StmtView::While(c, b) => {
            lemma_wrapping_inc_dec(st.depth);
            lemma_depth_stmt(CheckState { scopes: st.scopes.push(Map::empty()), depth: st.depth.wrapping_add(1) }, *b);
        },
        _ => {},
    }
}

proof fn lemma_depth_block(st: CheckState, ss: Seq<StmtView>, i: int)
    ensures
        spec_check_block(st, ss, i) matches Some((_, _, st2)) ==> st2.depth == st.depth,
    decreases ss, ss.len() - i,
{
    if 0 <= i < ss.len() {
        lemma_depth_stmt(st, ss[i]);
        if let Some((Ok(()), s2, st2)) = spec_check_stmt(st, ss[i]) {
            lemma_depth_block(st2, ss, i + 1);
        }
    }
}

/// A block, an `if` or a `while` that checks without error leaves the
/// checker's scopes and `while` depth exactly as it found them: what it
/// declares is gone with the scopes it entered.
pub proof fn law_nested_check_restores_scopes(st: CheckState, s: StmtView)
    requires
        st.scopes.len() >= 1,
        s is Block || s is If || s is While,
    ensures
        spec_check_stmt(st, s) matches Some((Ok(()), _, st2)) ==> st2.scopes == st.scopes && st2.depth == st.depth,
{
    assert(enter(st).scopes.drop_last() =~= st.scopes);
    match s {
        StmtView::Block(ss) => {
            lemma_block_balanced(enter(st), ss, 0);
        },
        StmtView::If(c, t, e) => {
            lemma_stmt_balanced(enter(st), *t);
            if let Some((Ok(()), t2, st2)) = spec_check_stmt(enter(st), *t) {
                let st3 = exit(st2).1;
                if let Some(eb) = e {
                    assert(enter(st3).scopes.drop_last() =~= st3.scopes);
                    lemma_stmt_balanced(enter(st3), *eb);
                }
            }
        },
        StmtView::While(c, b) => {
            let st1 = CheckState { scopes: st.scopes.push(Map::empty()), depth: st.depth.wrapping_add(1) };
            assert(st1.scopes.drop_last() =~= st.scopes);
            lemma_wrapping_inc_dec(st.depth);
            lemma_stmt_balanced(st1, *b);
        },
        _ => {},
    }
}

} // verus!
