use crate::ir::program::{
    BasicBlock, Function, FunctionData, IrBinaryOp, IrType, IrTypeView, ir_type_seq_view, lemma_ir_type_seq_view, ends_block, is_jump, lemma_frame_insts, Program, Value, ValueKind, frame, fresh, grows,
    is_return, kind_ok, lemma_frame_new_block, lemma_frame_refl, lemma_grows_in_layout, lemma_frame_trans, lemma_grows_not_in,
    lemma_grows_trans, lemma_not_laid_out, value_ok,
};
use crate::parser::ast::common::{Identifier, IdentifierView, ResolveStatus, ResolveStatusView};
use crate::parser::ast::compile_unit::CompileUnit;
use crate::parser::ast::expression::{
    BinaryOp, ExprView, Expression, UnaryOp, eval_binary, eval_unary, expr_seq_view, expr_view, lemma_expr_seq_view, spec_fold,
};
use crate::semantic::symbol_table::{SymbolInfoError, SymbolTableError};
use crate::parser::ast::statement::{StmtView, Statement, lemma_stmt_seq_view, stmt_seq_view, stmt_view, var_decl_view};
use crate::parser::ast::item::{FuncDef, FuncDefView, Item, ItemView, fparams_view, body_view, items_view};
use crate::parser::ast::common::{SpecType, Type};
use crate::ir::typemap::{lemma_spec_typemap_seq, spec_typemap, spec_typemap_seq, typemap};
use crate::semantic::symbol_table::entries_view;
use crate::builtins::builtin_functions::{get_builtin_functions, spec_builtin_functions};
use crate::semantic::symbol_table::Qualifier;
use vstd::prelude::*;
use vstd::string::StringExecFns;

verus! {

/// The map from names to what they were last bound to, by a list of
/// bindings in order: a later binding of a name replaces an earlier one.
pub open spec fn bindings_map<T>(e: Seq<(String, T)>) -> Map<Seq<char>, T>
    decreases e.len(),
{
    if e.len() == 0 {
        Map::empty()
    } else {
        bindings_map(e.drop_last()).insert(e.last().0@, e.last().1)
    }
}

/// What `name` is bound to in a stack of scopes, innermost last.
pub open spec fn scoped_lookup<T>(scopes: Seq<Map<Seq<char>, T>>, name: Seq<char>) -> Option<T>
    decreases scopes.len(),
{
    if scopes.len() == 0 {
        None
    } else if scopes.last().contains_key(name) {
        Some(scopes.last()[name])
    } else {
        scoped_lookup(scopes.drop_last(), name)
    }
}

/// The last binding of a name is the one found searching from the end.
proof fn lemma_bindings_map_last<T>(e: Seq<(String, T)>, name: Seq<char>, k: int)
    requires
        0 <= k < e.len(),
        e[k].0@ == name,
        forall|j: int| k < j < e.len() ==> (#[trigger] e[j]).0@ != name,
    ensures
        bindings_map(e).contains_key(name),
        bindings_map(e)[name] == e[k].1,
    decreases e.len(),
{
    if k < e.len() - 1 {
        let d = e.drop_last();
        assert forall|j: int| k < j < d.len() implies (#[trigger] d[j]).0@ != name by {
            assert(d[j] == e[j]);
        }
        lemma_bindings_map_last(d, name, k);
    }
}

proof fn lemma_bindings_map_missing<T>(e: Seq<(String, T)>, name: Seq<char>)
    requires
        forall|j: int| 0 <= j < e.len() ==> (#[trigger] e[j]).0@ != name,
    ensures
        !bindings_map(e).contains_key(name),
    decreases e.len(),
{
    if e.len() > 0 {
        let d = e.drop_last();
        assert forall|j: int| 0 <= j < d.len() implies (#[trigger] d[j]).0@ != name by {
            assert(d[j] == e[j]);
        }
        lemma_bindings_map_missing(d, name);
    }
}

proof fn lemma_scoped_found<T>(scopes: Seq<Map<Seq<char>, T>>, name: Seq<char>, k: int)
    requires
        0 <= k < scopes.len(),
        scopes[k].contains_key(name),
        forall|j: int| k < j < scopes.len() ==> !(#[trigger] scopes[j]).contains_key(name),
    ensures
        scoped_lookup(scopes, name) == Some(scopes[k][name]),
    decreases scopes.len(),
{
    if k < scopes.len() - 1 {
        assert(!scopes[scopes.len() - 1].contains_key(name));
        let d = scopes.drop_last();
        assert forall|j: int| k < j < d.len() implies !(#[trigger] d[j]).contains_key(name) by {
            assert(d[j] == scopes[j]);
        }
        lemma_scoped_found(d, name, k);
    }
}

proof fn lemma_scoped_missing<T>(scopes: Seq<Map<Seq<char>, T>>, name: Seq<char>)
    requires
        forall|j: int| 0 <= j < scopes.len() ==> !(#[trigger] scopes[j]).contains_key(name),
    ensures
        scoped_lookup(scopes, name) is None,
    decreases scopes.len(),
{
    if scopes.len() > 0 {
        let d = scopes.drop_last();
        assert(!scopes[scopes.len() - 1].contains_key(name));
        assert forall|j: int| 0 <= j < d.len() implies !(#[trigger] d[j]).contains_key(name) by {
            assert(d[j] == scopes[j]);
        }
        lemma_scoped_missing(d, name);
    }
}

/// Looks a name up in one list of bindings, the last binding first.
fn find_binding<T: Copy>(v: &Vec<(String, T)>, id: &String) -> (r: Option<T>)
    ensures
        bindings_map(v@).contains_key(id@) ==> r == Some(bindings_map(v@)[id@]),
        !bindings_map(v@).contains_key(id@) ==> r is None,
{
    let mut i: usize = v.len();
    while i > 0
        invariant
            i <= v@.len(),
            forall|j: int| i <= j < v@.len() ==> (#[trigger] v@[j]).0@ != id@,
        decreases i,
    {
        if v[i - 1].0 == *id {
            proof {
                lemma_bindings_map_last(v@, id@, i - 1);
            }
            return Some(v[i - 1].1);
        }
        i = i - 1;
    }
    proof {
        lemma_bindings_map_missing(v@, id@);
    }
    None
}

fn clone_bindings<T: Copy>(v: &Vec<(String, T)>) -> (r: Vec<(String, T)>)
    ensures
        bindings_map(r@) == bindings_map(v@),
{
    let mut r: Vec<(String, T)> = Vec::new();
    let mut i: usize = 0;
    while i < v.len()
        invariant
            i <= v@.len(),
            r@.len() == i,
            forall|j: int| 0 <= j < i ==> (#[trigger] r@[j]).0@ == v@[j].0@ && r@[j].1 == v@[j].1,
        decreases v@.len() - i,
    {
        r.push((v[i].0.clone(), v[i].1));
        i = i + 1;
    }
    proof {
        lemma_bindings_map_ext(r@, v@);
    }
    r
}

proof fn lemma_bindings_map_ext<T>(a: Seq<(String, T)>, b: Seq<(String, T)>)
    requires
        a.len() == b.len(),
        forall|j: int| 0 <= j < a.len() ==> (#[trigger] a[j]).0@ == b[j].0@ && a[j].1 == b[j].1,
    ensures
        bindings_map(a) == bindings_map(b),
    decreases a.len(),
{
    if a.len() > 0 {
        let (da, db) = (a.drop_last(), b.drop_last());
        assert forall|j: int| 0 <= j < da.len() implies (#[trigger] da[j]).0@ == db[j].0@ && da[j].1 == db[j].1 by {
            assert(da[j] == a[j]);
            assert(db[j] == b[j]);
        }
        lemma_bindings_map_ext(da, db);
    }
}

/// Errors of the map from names to IR values.
#[derive(Debug)]
pub enum SymbolValueMapError {
    /// The current scope has no parent scope.
    NoParentScope,
}

/// A stack of scopes binding names to values and to functions; the first
/// scope is the outermost, the last the current one.
#[derive(Debug)]
pub struct SymbolValueMap<V: Copy, F: Copy> {
    scopes: Vec<(Vec<(String, V)>, Vec<(String, F)>)>,
}

impl<V: Copy, F: Copy> SymbolValueMap<V, F> {
    /// The value bindings of each scope, innermost last.
    pub closed spec fn values(&self) -> Seq<Map<Seq<char>, V>> {
        Seq::new(self.scopes@.len(), |i: int| bindings_map(self.scopes@[i].0@))
    }

    /// The function bindings of each scope, innermost last.
    pub closed spec fn functions(&self) -> Seq<Map<Seq<char>, F>> {
        Seq::new(self.scopes@.len(), |i: int| bindings_map(self.scopes@[i].1@))
    }

    /// Well-formedness: there is a current scope.
    pub closed spec fn wf(&self) -> bool {
        self.scopes@.len() >= 1
    }

    /// A well-formed map has a current scope.
    pub proof fn lemma_wf(&self)
        requires
            self.wf(),
        ensures
            self.values().len() >= 1,
            self.functions().len() == self.values().len(),
    {
    }

    /// A map with one empty scope.
    pub fn new() -> (r: Self)
        ensures
            r.wf(),
            r.values() == seq![Map::<Seq<char>, V>::empty()],
            r.functions() == seq![Map::<Seq<char>, F>::empty()],
    {
        let mut scopes: Vec<(Vec<(String, V)>, Vec<(String, F)>)> = Vec::new();
        scopes.push((Vec::new(), Vec::new()));
        let r = SymbolValueMap { scopes };
        assert(r.values() =~= seq![Map::<Seq<char>, V>::empty()]);
        assert(r.functions() =~= seq![Map::<Seq<char>, F>::empty()]);
        r
    }

    /// Binds a name to a value in the current scope, replacing a binding of
    /// the same name there.
    pub fn add_value(&mut self, id: String, value: V)
        requires
            old(self).wf(),
        ensures
            final(self).wf(),
            final(self).values() == old(self).values().update(old(self).values().len() - 1, old(self).values().last().insert(id@, value)),
            final(self).functions() == old(self).functions(),
    {
        let last = self.scopes.len() - 1;
        let ghost old_self = *self;
        self.scopes[last].0.push((id, value));
        proof {
            let e = self.scopes@[last as int].0@;
            assert(e.drop_last() =~= old_self.scopes@[last as int].0@);
        }
        assert(self.values() =~= old_self.values().update(old_self.values().len() - 1, old_self.values().last().insert(id@, value)));
        assert(self.functions() =~= old_self.functions());
    }

    /// Binds a name to a function in the current scope, replacing a binding
    /// of the same name there.
    pub fn add_function(&mut self, id: String, func: F)
        requires
            old(self).wf(),
        ensures
            final(self).wf(),
            final(self).functions() == old(self).functions().update(old(self).functions().len() - 1, old(self).functions().last().insert(id@, func)),
            final(self).values() == old(self).values(),
    {
        let last = self.scopes.len() - 1;
        let ghost old_self = *self;
        self.scopes[last].1.push((id, func));
        proof {
            let e = self.scopes@[last as int].1@;
            assert(e.drop_last() =~= old_self.scopes@[last as int].1@);
        }
        assert(self.functions() =~= old_self.functions().update(old_self.functions().len() - 1, old_self.functions().last().insert(id@, func)));
        assert(self.values() =~= old_self.values());
    }

    /// The value that a name is bound to, from the current scope outwards.
    pub fn find_value(&self, id: &String) -> (r: Option<V>)
        ensures
            r == scoped_lookup(self.values(), id@),
    {
        let mut k: usize = self.scopes.len();
        while k > 0
            invariant
                k <= self.scopes@.len(),
                forall|j: int| k <= j < self.values().len() ==> !(#[trigger] self.values()[j]).contains_key(id@),
            decreases k,
        {
            let idx = k - 1;
            match find_binding(&self.scopes[idx].0, id) {
                Some(v) => {
                    proof {
                        lemma_scoped_found(self.values(), id@, idx as int);
                    }
                    return Some(v);
                },
                None => {},
            }
            k = idx;
        }
        proof {
            lemma_scoped_missing(self.values(), id@);
        }
        None
    }

    /// The function that a name is bound to, from the current scope outwards.
    pub fn find_function(&self, id: &String) -> (r: Option<F>)
        ensures
            r == scoped_lookup(self.functions(), id@),
    {
        let mut k: usize = self.scopes.len();
        while k > 0
            invariant
                k <= self.scopes@.len(),
                forall|j: int| k <= j < self.functions().len() ==> !(#[trigger] self.functions()[j]).contains_key(id@),
            decreases k,
        {
            let idx = k - 1;
            match find_binding(&self.scopes[idx].1, id) {
                Some(v) => {
                    proof {
                        lemma_scoped_found(self.functions(), id@, idx as int);
                    }
                    return Some(v);
                },
                None => {},
            }
            k = idx;
        }
        proof {
            lemma_scoped_missing(self.functions(), id@);
        }
        None
    }

    fn clone_scopes(&self, n: usize) -> (r: Vec<(Vec<(String, V)>, Vec<(String, F)>)>)
        requires
            n <= self.scopes@.len(),
        ensures
            r@.len() == n,
            forall|i: int| 0 <= i < n ==> bindings_map((#[trigger] r@[i]).0@) == bindings_map(self.scopes@[i].0@)
                && bindings_map(r@[i].1@) == bindings_map(self.scopes@[i].1@),
    {
        let mut r: Vec<(Vec<(String, V)>, Vec<(String, F)>)> = Vec::new();
        let mut i: usize = 0;
        while i < n
            invariant
                n <= self.scopes@.len(),
                i <= n,
                r@.len() == i,
                forall|j: int| 0 <= j < i ==> bindings_map((#[trigger] r@[j]).0@) == bindings_map(self.scopes@[j].0@)
                    && bindings_map(r@[j].1@) == bindings_map(self.scopes@[j].1@),
            decreases n - i,
        {
            r.push((clone_bindings(&self.scopes[i].0), clone_bindings(&self.scopes[i].1)));
            i = i + 1;
        }
        r
    }

    /// A child map: these scopes with a new, empty current scope.
    pub fn enter_scope(&self) -> (r: Self)
        requires
            self.wf(),
        ensures
            r.wf(),
            r.values() == self.values().push(Map::empty()),
            r.functions() == self.functions().push(Map::empty()),
    {
        let mut scopes = self.clone_scopes(self.scopes.len());
        scopes.push((Vec::new(), Vec::new()));
        let r = SymbolValueMap { scopes };
        assert(r.values() =~= self.values().push(Map::empty()));
        assert(r.functions() =~= self.functions().push(Map::empty()));
        r
    }

    /// The parent map: these scopes without the current one. The outermost
    /// scope has no parent.
    pub fn exit_scope(&self) -> (r: Result<Self, SymbolValueMapError>)
        requires
            self.wf(),
        ensures
            self.values().len() == 1 ==> r matches Err(SymbolValueMapError::NoParentScope),
            self.values().len() > 1 ==> (r matches Ok(m) && m.wf() && m.values() == self.values().drop_last()
                && m.functions() == self.functions().drop_last()),
    {
        if self.scopes.len() == 1 {
            Err(SymbolValueMapError::NoParentScope)
        } else {
            let scopes = self.clone_scopes(self.scopes.len() - 1);
            let r = SymbolValueMap { scopes };
            assert(r.values() =~= self.values().drop_last());
            assert(r.functions() =~= self.functions().drop_last());
            Ok(r)
        }
    }
}

/// What the last instruction of the block in which code goes on is, after
/// some code was built, compared with before.
pub enum Last {
    /// The block is the same and nothing was added to it.
    Keep,
    /// The last instruction is a return.
    Ret,
    /// The last instruction is something other than a return.
    Other,
    /// The block is a new one with no instructions.
    Empty,
}

/// The effect of building one piece of code and then another.
pub open spec fn then_last(a: Last, b: Last) -> Last {
    if b is Keep { a } else { b }
}

/// The names bound in the builder's scopes, innermost last: to values and
/// to functions.
pub struct Names {
    pub vals: Seq<Set<Seq<char>>>,
    pub funcs: Seq<Set<Seq<char>>>,
}

/// Whether some scope binds the name.
pub open spec fn bound(ss: Seq<Set<Seq<char>>>, name: Seq<char>) -> bool {
    exists|i: int| 0 <= i < ss.len() && ss[i].contains(name)
}

/// Binds the name in the innermost scope.
pub open spec fn bind(ss: Seq<Set<Seq<char>>>, name: Seq<char>) -> Seq<Set<Seq<char>>> {
    ss.update(ss.len() - 1, ss.last().insert(name))
}

pub open spec fn names_enter(ns: Names) -> Names {
    Names { vals: ns.vals.push(Set::empty()), funcs: ns.funcs.push(Set::empty()) }
}

/// Leaving the innermost scope; `None` where it is the only one.
pub open spec fn names_exit(ns: Names) -> Option<Names> {
    if ns.vals.len() <= 1 {
        None
    } else {
        Some(Names { vals: ns.vals.drop_last(), funcs: ns.funcs.drop_last() })
    }
}

/// Building an expression: `None` where the builder stops the program (an
/// unresolved identifier, a variable or function that no scope binds);
/// else whether it succeeds (it fails on a constant that holds no value)
/// and its effect on the current block.
pub open spec fn spec_build_expr(ns: Names, e: ExprView) -> Option<(bool, Last)>
    decreases e, 0int,
{
    match e {
        ExprView::IntLit(_) => Some((true, Last::Keep)),
        ExprView::Ident(id) => match id.status {
            ResolveStatusView::Unresolved => None,
            ResolveStatusView::Resolved(info) => if info.qualifier == Qualifier::Const {
                Some((info.const_val is Some, Last::Keep))
            } else if bound(ns.vals, id.name) {
                Some((true, Last::Other))
            } else {
                None
            },
        },
        ExprView::Unary(op, b) => match spec_build_expr(ns, *b) {
            None => None,
            Some((ok, l)) => Some((ok, if op == UnaryOp::Plus { l } else { Last::Other })),
        },
        ExprView::Binary(l, _, r) => match spec_build_expr(ns, *l) {
            None => None,
            Some((false, _)) => Some((false, Last::Other)),
            Some((true, _)) => match spec_build_expr(ns, *r) {
                None => None,
                Some((ok, _)) => Some((ok, Last::Other)),
            },
        },
        ExprView::Call(id, args) => if !bound(ns.funcs, id.name) {
            None
        } else {
            match spec_build_args(ns, args, 0) {
                None => None,
                Some(ok) => Some((ok, Last::Other)),
            }
        },
    }
}

/// Building the arguments from the `i`-th on, up to the first failure.
pub open spec fn spec_build_args(ns: Names, args: Seq<ExprView>, i: int) -> Option<bool>
    decreases args, args.len() - i,
{
    if i < 0 || i >= args.len() {
        Some(true)
    } else {
        match spec_build_expr(ns, args[i]) {
            None => None,
            Some((false, _)) => Some(false),
            Some((true, _)) => spec_build_args(ns, args, i + 1),
        }
    }
}

/// Building the entries of a variable declaration from the `i`-th on: each
/// name is bound before its initialiser is built.
pub open spec fn spec_build_vars(ns: Names, v: Seq<(crate::parser::ast::common::SpecType, IdentifierView, Option<ExprView>)>, i: int) -> Option<(bool, Names)>
    decreases v.len() - i,
{
    if i < 0 || i >= v.len() {
        Some((true, ns))
    } else {
        let ns2 = Names { vals: bind(ns.vals, v[i].1.name), funcs: ns.funcs };
        match v[i].2 {
            None => spec_build_vars(ns2, v, i + 1),
            Some(e) => match spec_build_expr(ns2, e) {
                None => None,
                Some((false, _)) => Some((false, ns2)),
                Some((true, _)) => spec_build_vars(ns2, v, i + 1),
            },
        }
    }
}

/// Building a statement, in a context that is inside a `while` or not:
/// `None` where the builder stops the program; else whether it succeeds,
/// its effect on the current block, the bound names after it and whether
/// the context after it is inside a `while`.
pub open spec fn spec_build_stmt(ns: Names, w: bool, s: StmtView) -> Option<(bool, Last, Names, bool)>
    decreases s, 0int,
{
    match s {
        StmtView::Return(e) => match spec_build_expr(ns, e) {
            None => None,
            Some((ok, _)) => Some((ok, Last::Ret, ns, w)),
        },
        StmtView::ConstDecl(_) => Some((true, Last::Keep, ns, w)),
        StmtView::VarDecl(v) => match spec_build_vars(ns, v, 0) {
            None => None,
            Some((ok, ns2)) => Some((ok, if v.len() == 0 { Last::Keep } else { Last::Other }, ns2, w)),
        },
        StmtView::Assign(lval, e) => if !bound(ns.vals, lval.name) {
            None
        } else {
            match spec_build_expr(ns, e) {
                None => None,
                Some((ok, _)) => Some((ok, Last::Other, ns, w)),
            }
        },
        StmtView::Expression(oe) => match oe {
            None => Some((true, Last::Keep, ns, w)),
            Some(e) => match spec_build_expr(ns, e) {
                None => None,
                Some((ok, l)) => Some((ok, l, ns, w)),
            },
        },
        StmtView::Block(ss) => match spec_build_block(names_enter(ns), w, ss, 0) {
            None => None,
            Some((false, l, ns2, w2)) => Some((false, l, ns2, w2)),
            Some((true, l, ns2, w2)) => match names_exit(ns2) {
                None => Some((false, l, ns2, w2)),
                Some(ns3) => Some((true, l, ns3, w2)),
            },
        },
        StmtView::If(c, t, e) => match spec_build_stmt(ns, w, *t) {
            None => None,
            Some((false, _, ns1, _)) => Some((false, Last::Empty, ns1, w)),
            Some((true, _, ns1, _)) => {
                let else_part = match e {
                    None => Some((true, ns1)),
                    Some(eb) => match spec_build_stmt(ns1, w, *eb) {
                        None => None,
                        Some((ok, _, ns2, _)) => Some((ok, ns2)),
                    },
                };
                match else_part {
                    None => None,
                    Some((false, ns2)) => Some((false, Last::Empty, ns2, w)),
                    Some((true, ns2)) => match spec_build_expr(ns2, c) {
                        None => None,
                        Some((ok, _)) => Some((ok, Last::Empty, ns2, w)),
                    },
                }
            },
        },
        StmtView::While(c, b) => match spec_build_expr(ns, c) {
            None => None,
            Some((false, _)) => Some((false, Last::Empty, ns, w)),
            Some((true, _)) => match spec_build_stmt(ns, true, *b) {
                None => None,
                Some((ok, _, ns2, _)) => Some((ok, Last::Empty, ns2, w)),
            },
        },
        StmtView::Break => if w { Some((true, Last::Empty, ns, w)) } else { None },
        StmtView::Continue => if w { Some((true, Last::Empty, ns, w)) } else { None },
    }
}

/// Building the statements from the `i`-th on, each in the context that
/// the one before it left, up to the first failure.
pub open spec fn spec_build_block(ns: Names, w: bool, ss: Seq<StmtView>, i: int) -> Option<(bool, Last, Names, bool)>
    decreases ss, ss.len() - i,
{
    if i < 0 || i >= ss.len() {
        Some((true, Last::Keep, ns, w))
    } else {
        match spec_build_stmt(ns, w, ss[i]) {
            None => None,
            Some((false, l, ns2, w2)) => Some((false, l, ns2, w2)),
            Some((true, l, ns2, w2)) => match spec_build_block(ns2, w2, ss, i + 1) {
                None => None,
                Some((ok, l2, ns3, w3)) => Some((ok, then_last(l, l2), ns3, w3)),
            },
        }
    }
}

/// Binds the names from the `i`-th on, in order, in the innermost scope.
pub open spec fn bind_all(ss: Seq<Set<Seq<char>>>, names: Seq<Seq<char>>, i: int) -> Seq<Set<Seq<char>>>
    decreases names.len() - i,
{
    if i < 0 || i >= names.len() {
        ss
    } else {
        bind_all(bind(ss, names[i]), names, i + 1)
    }
}

/// The names of a function's parameters, in order.
pub open spec fn param_names(ps: Seq<(IdentifierView, SpecType)>) -> Seq<Seq<char>> {
    Seq::new(ps.len(), |i: int| ps[i].0.name)
}

/// Building the body of a function from the `i`-th statement on, each in a
/// context outside any `while`, where `l` is the effect so far on the
/// block where code goes on: it stops after the first statement that leaves
/// that block ending in a return. Whether it succeeds, the effect and the
/// bound names after it.
pub open spec fn spec_build_body(ns: Names, ss: Seq<StmtView>, i: int, l: Last) -> Option<(bool, Last, Names)>
    decreases ss.len() - i,
{
    if i < 0 || i >= ss.len() {
        Some((true, l, ns))
    } else {
        match spec_build_stmt(ns, false, ss[i]) {
            None => None,
            Some((false, l2, ns2, _)) => Some((false, then_last(l, l2), ns2)),
            Some((true, l2, ns2, _)) => if then_last(l, l2) is Ret {
                Some((true, Last::Ret, ns2))
            } else {
                spec_build_body(ns2, ss, i + 1, then_last(l, l2))
            },
        }
    }
}

/// Building a function definition: its name is bound to the function in
/// the current scope, its parameters in a new scope, where its body is
/// built; the scope is left at the end.
pub open spec fn spec_build_func(ns: Names, fd: FuncDefView) -> Option<(bool, Names)> {
    let entered = names_enter(Names { vals: ns.vals, funcs: bind(ns.funcs, fd.ident.name) });
    let with_params = Names { vals: bind_all(entered.vals, param_names(fd.fparams), 0), funcs: entered.funcs };
    match spec_build_body(with_params, fd.body, 0, if fd.fparams.len() == 0 { Last::Empty } else { Last::Other }) {
        None => None,
        Some((false, _, ns2)) => Some((false, ns2)),
        Some((true, _, ns2)) => match names_exit(ns2) {
            None => Some((false, ns2)),
            Some(ns3) => Some((true, ns3)),
        },
    }
}

/// Building the entries of a global variable declaration from the `i`-th
/// on: the builder stops the program on an initialiser that has no
/// compile-time value; else the bound names after them.
pub open spec fn spec_build_globals(ns: Names, v: Seq<(SpecType, IdentifierView, Option<ExprView>)>, i: int) -> Option<Names>
    decreases v.len() - i,
{
    if i < 0 || i >= v.len() {
        Some(ns)
    } else if v[i].2 matches Some(e) && spec_fold(e) is None {
        None
    } else {
        spec_build_globals(Names { vals: bind(ns.vals, v[i].1.name), funcs: ns.funcs }, v, i + 1)
    }
}

/// Building a top-level item: `None` where the builder stops the program
/// (a global statement other than a declaration among them); else whether
/// it succeeds and the bound names after it.
pub open spec fn spec_build_item(ns: Names, it: ItemView) -> Option<(bool, Names)> {
    match it {
        ItemView::FuncDef(fd) => spec_build_func(ns, fd),
        ItemView::GlobalVar(s) => match s {
            StmtView::VarDecl(v) => match spec_build_globals(ns, v, 0) {
                None => None,
                Some(ns2) => Some((true, ns2)),
            },
            StmtView::ConstDecl(_) => Some((true, ns)),
            _ => None,
        },
    }
}

/// Building the items from the `i`-th on, up to the first failure.
pub open spec fn spec_build_items(ns: Names, items: Seq<ItemView>, i: int) -> Option<bool>
    decreases items.len() - i,
{
    if i < 0 || i >= items.len() {
        Some(true)
    } else {
        match spec_build_item(ns, items[i]) {
            None => None,
            Some((false, _)) => Some(false),
            Some((true, ns2)) => spec_build_items(ns2, items, i + 1),
        }
    }
}

/// The names of the runtime library functions, in order.
pub open spec fn builtin_names() -> Seq<Seq<char>> {
    Seq::new(spec_builtin_functions().len(), |i: int| spec_builtin_functions()[i].0)
}

/// Building a compile unit: the runtime library functions are declared and
/// bound in one global scope, then the items are built in order. `None`
/// where the builder stops the program; else whether it succeeds.
pub open spec fn spec_build_compunit(items: Seq<ItemView>) -> Option<bool> {
    let ns = Names {
        vals: seq![Set::<Seq<char>>::empty()],
        funcs: bind_all(seq![Set::<Seq<char>>::empty()], builtin_names(), 0),
    };
    spec_build_items(ns, items, 0)
}

/// The function definitions among the items, in order.
pub open spec fn defined_funcs(items: Seq<ItemView>) -> Seq<FuncDefView>
    decreases items.len(),
{
    if items.len() == 0 {
        Seq::empty()
    } else {
        let rest = defined_funcs(items.drop_last());
        match items.last() {
            ItemView::FuncDef(fd) => rest.push(fd),
            _ => rest,
        }
    }
}

/// The entries of the global variable declarations among the items, in
/// order.
pub open spec fn global_entries(items: Seq<ItemView>) -> Seq<(SpecType, IdentifierView, Option<ExprView>)>
    decreases items.len(),
{
    if items.len() == 0 {
        Seq::empty()
    } else {
        let rest = global_entries(items.drop_last());
        match items.last() {
            ItemView::GlobalVar(StmtView::VarDecl(v)) => rest + v,
            _ => rest,
        }
    }
}

/// A function of the program with the given name, parameter types and
/// return type: named with an `@` before the name, its types mapped to
/// Koopa IR types.
pub open spec fn header_ok(fd: FunctionData, name: Seq<char>, ps: Seq<SpecType>, ret: SpecType) -> bool {
    &&& fd.name@ == seq!['@'] + name
    &&& fd.params_ty@.len() == ps.len()
    &&& forall|i: int| 0 <= i < ps.len() ==> (#[trigger] fd.params_ty@[i])@ == spec_typemap(ps[i])
    &&& fd.ret_ty@ == spec_typemap(ret)
}

/// The entry block of a function definition starts by storing each
/// argument into a slot of its own, in order: a slot for the parameter's
/// type, then the store of the argument into it.
pub open spec fn params_stored(fd: FunctionData, ps: Seq<SpecType>) -> bool {
    let e = fd.insts(BasicBlock(0));
    &&& e.len() >= 2 * ps.len()
    &&& forall|i: int| #![trigger e[2 * i]] 0 <= i < ps.len() ==> {
        &&& e[2 * i] is Local
        &&& e[2 * i]->Local_0 < fd.values@.len()
        &&& e[2 * i + 1] is Local
        &&& e[2 * i + 1]->Local_0 < fd.values@.len()
        &&& fd.values@[e[2 * i]->Local_0 as int] matches ValueKind::Alloc(t) && t@ == spec_typemap(ps[i])
        &&& fd.values@[e[2 * i + 1]->Local_0 as int] == ValueKind::Store(Value::Local(i as usize), e[2 * i])
    }
}

/// Instructions are only appended to a block laid out.
pub proof fn lemma_grows_insts(a: FunctionData, b: FunctionData, x: BasicBlock)
    requires
        grows(a, b),
        a.wf_layout(),
        b.wf_layout(),
        a.in_layout(x),
    ensures
        b.insts(x).len() >= a.insts(x).len(),
        forall|k: int| 0 <= k < a.insts(x).len() ==> #[trigger] b.insts(x)[k] == a.insts(x)[k],
{
    let q = choose|q: int| 0 <= q < a.layout@.len() && a.layout@[q].0 == x;
    a.lemma_layout_pos(q);
    assert(b.layout@[q].0 == x);
    b.lemma_layout_pos(q);
}

/// The arguments stay stored as the function grows.
pub proof fn lemma_params_stored_kept(a: FunctionData, b: FunctionData, ps: Seq<SpecType>)
    requires
        params_stored(a, ps),
        grows(a, b),
        a.wf_layout(),
        b.wf_layout(),
        a.in_layout(BasicBlock(0)),
    ensures
        params_stored(b, ps),
{
    lemma_grows_insts(a, b, BasicBlock(0));
    let ea = a.insts(BasicBlock(0));
    let eb = b.insts(BasicBlock(0));
    assert forall|i: int| #![trigger eb[2 * i]] 0 <= i < ps.len() implies {
        &&& eb[2 * i] is Local
        &&& eb[2 * i]->Local_0 < b.values@.len()
        &&& eb[2 * i + 1] is Local
        &&& eb[2 * i + 1]->Local_0 < b.values@.len()
        &&& b.values@[eb[2 * i]->Local_0 as int] matches ValueKind::Alloc(t) && t@ == spec_typemap(ps[i])
        &&& b.values@[eb[2 * i + 1]->Local_0 as int] == ValueKind::Store(Value::Local(i as usize), eb[2 * i])
    } by {
        assert(ea[2 * i] is Local);
        assert(eb[2 * i] == ea[2 * i]);
        assert(eb[2 * i + 1] == ea[2 * i + 1]);
        assert(b.values@[ea[2 * i]->Local_0 as int] == a.values@[ea[2 * i]->Local_0 as int]);
        assert(b.values@[ea[2 * i + 1]->Local_0 as int] == a.values@[ea[2 * i + 1]->Local_0 as int]);
    }
}

/// A function declaration: no values, no parameters and no blocks.
pub open spec fn is_decl(fd: FunctionData) -> bool {
    fd.values@.len() == 0 && fd.params@.len() == 0 && fd.bbs@.len() == 0 && fd.layout@.len() == 0
}

/// A function definition: one value per parameter, the entry block laid
/// out first, some block laid out that ends in a return, and no two blocks
/// bearing the same name.
pub open spec fn is_def(fd: FunctionData) -> bool {
    &&& fd.params@.len() == fd.params_ty@.len()
    &&& fd.layout@.len() > 0
    &&& fd.layout@[0].0 == BasicBlock(0)
    &&& exists|bb: BasicBlock| fd.in_layout(bb) && fd.insts(bb).len() > 0
        && is_return(fd.values@[fd.insts(bb).last()->Local_0 as int])
    &&& block_names_distinct(fd.bbs@)
}

/// The two global values made for the entry of a global variable whose
/// initialiser is created at position `at`: the initialiser, the constant
/// value or a zero of the variable's type, then the allocation that it
/// initialises, named with a `%` before the variable's name.
pub open spec fn global_ok(init: (ValueKind, Option<String>), alloc: (ValueKind, Option<String>), e: (SpecType, IdentifierView, Option<ExprView>), at: nat) -> bool {
    &&& init.1 is None
    &&& match init.0 {
        ValueKind::Integer(c) => e.2 matches Some(x) && spec_fold(x) == Some(c),
        ValueKind::ZeroInit(t) => e.2 is None && t@ == spec_typemap(e.0),
        _ => false,
    }
    &&& alloc.0 == ValueKind::GlobalAlloc(Value::Global(at as usize))
    &&& alloc.1 matches Some(n) && n@ == seq!['%'] + e.1.name
}

/// How many blocks building an expression makes at most: three for each
/// `&&` and `||`.
pub open spec fn blocks_expr(e: ExprView) -> nat
    decreases e, 0int,
{
    match e {
        ExprView::IntLit(_) => 0,
        ExprView::Ident(_) => 0,
        ExprView::Unary(_, b) => blocks_expr(*b),
        ExprView::Binary(l, op, r) => (if op == BinaryOp::LogicalAnd || op == BinaryOp::LogicalOr { 3nat } else { 0nat })
            + blocks_expr(*l) + blocks_expr(*r),
        ExprView::Call(_, args) => blocks_args(args, 0),
    }
}

/// How many blocks building the expressions from the `i`-th on makes at
/// most.
pub open spec fn blocks_args(args: Seq<ExprView>, i: int) -> nat
    decreases args, args.len() - i,
{
    if i < 0 || i >= args.len() {
        0
    } else {
        blocks_expr(args[i]) + blocks_args(args, i + 1)
    }
}

/// How many blocks building the initialisers of the entries from the
/// `i`-th on makes at most.
pub open spec fn blocks_vars(v: Seq<(SpecType, IdentifierView, Option<ExprView>)>, i: int) -> nat
    decreases v.len() - i,
{
    if i < 0 || i >= v.len() {
        0
    } else {
        (match v[i].2 {
            Some(e) => blocks_expr(e),
            None => 0,
        }) + blocks_vars(v, i + 1)
    }
}

/// How many blocks building a statement makes at most.
pub open spec fn blocks_stmt(s: StmtView) -> nat
    decreases s, 0int,
{
    match s {
        StmtView::Return(e) => blocks_expr(e),
        StmtView::ConstDecl(_) => 0,
        StmtView::VarDecl(v) => blocks_vars(v, 0),
        StmtView::Assign(_, e) => blocks_expr(e),
        StmtView::Expression(oe) => match oe {
            Some(e) => blocks_expr(e),
            None => 0,
        },
        StmtView::Block(ss) => blocks_block(ss, 0),
        StmtView::If(c, t, e) => 3 + blocks_stmt(*t) + (match e {
            Some(b) => 1 + blocks_stmt(*b),
            None => 0,
        }) + blocks_expr(c),
        StmtView::While(c, b) => 3 + blocks_expr(c) + blocks_stmt(*b),
        StmtView::Break => 1,
        StmtView::Continue => 1,
    }
}

/// How many blocks building the statements from the `i`-th on makes at
/// most.
pub open spec fn blocks_block(ss: Seq<StmtView>, i: int) -> nat
    decreases ss, ss.len() - i,
{
    if i < 0 || i >= ss.len() {
        0
    } else {
        blocks_stmt(ss[i]) + blocks_block(ss, i + 1)
    }
}

/// How many blocks building an item makes at most: a function's entry
/// block and those of its body.
pub open spec fn blocks_item(it: ItemView) -> nat {
    match it {
        ItemView::FuncDef(fd) => 1 + blocks_block(fd.body, 0),
        ItemView::GlobalVar(_) => 0,
    }
}

/// How many blocks building the items from the `i`-th on makes at most.
pub open spec fn blocks_items(items: Seq<ItemView>, i: int) -> nat
    decreases items.len() - i,
{
    if i < 0 || i >= items.len() {
        0
    } else {
        blocks_item(items[i]) + blocks_items(items, i + 1)
    }
}

/// The decimal digit character of `d < 10`.
pub open spec fn digit_char(d: nat) -> char {
    if d == 0 { '0' } else if d == 1 { '1' } else if d == 2 { '2' } else if d == 3 { '3' }
    else if d == 4 { '4' } else if d == 5 { '5' } else if d == 6 { '6' } else if d == 7 { '7' }
    else if d == 8 { '8' } else { '9' }
}

/// The decimal rendering of a number, without leading zeros.
pub open spec fn decimal(n: nat) -> Seq<char>
    decreases n,
{
    if n < 10 {
        seq![digit_char(n)]
    } else {
        decimal(n / 10).push(digit_char(n % 10))
    }
}

fn digit_str(d: usize) -> (r: &'static str)
    requires
        d < 10,
    ensures
        r@ == seq![digit_char(d as nat)],
{
    proof {
        reveal_strlit("0");
        reveal_strlit("1");
        reveal_strlit("2");
        reveal_strlit("3");
        reveal_strlit("4");
        reveal_strlit("5");
        reveal_strlit("6");
        reveal_strlit("7");
        reveal_strlit("8");
        reveal_strlit("9");
    }
    if d == 0 { "0" } else if d == 1 { "1" } else if d == 2 { "2" } else if d == 3 { "3" }
    else if d == 4 { "4" } else if d == 5 { "5" } else if d == 6 { "6" } else if d == 7 { "7" }
    else if d == 8 { "8" } else { "9" }
}

/// Appends the decimal rendering of `n` to `s`.
fn append_decimal(s: &mut String, n: usize)
    ensures
        final(s)@ == old(s)@ + decimal(n as nat),
    decreases n,
{
    if n < 10 {
        s.append(digit_str(n));
    } else {
        append_decimal(s, n / 10);
        s.append(digit_str(n % 10));
        assert(old(s)@ + decimal(n as nat) =~= (old(s)@ + decimal((n / 10) as nat)) + seq![digit_char((n % 10) as nat)]);
    }
}

/// The name made for the `n`-th use of `name`, counting from 0.
pub open spec fn spec_generated_name(name: Seq<char>, n: nat) -> Seq<char> {
    name + seq!['_'] + decimal(n)
}

/// Makes names unique by numbering the uses of each name.
pub struct NameGenerator {
    used_names: Vec<(String, usize)>,
    /// How many names were made.
    made: Ghost<nat>,
}

impl View for NameGenerator {
    type V = Map<Seq<char>, usize>;

    /// How often each name was used, minus one.
    closed spec fn view(&self) -> Map<Seq<char>, usize> {
        bindings_map(self.used_names@)
    }
}

impl NameGenerator {
    /// No name was used more often than names were made.
    #[verifier::type_invariant]
    spec fn counts_below_made(&self) -> bool {
        forall|k: Seq<char>| bindings_map(self.used_names@).contains_key(k) ==> bindings_map(self.used_names@)[k] < self.made@
    }

    /// How many names the generator made.
    pub closed spec fn made(&self) -> nat {
        self.made@
    }

    /// A generator whose counts hold every name it made, with one of them
    /// at the largest count, made more names than a count can hold.
    pub proof fn lemma_exhausted(&self)
        requires
            forall|k: Seq<char>| self@.contains_key(k) ==> self@[k] < self.made(),
            exhausted(self@),
        ensures
            self.made() > usize::MAX,
    {
        let k = choose|k: Seq<char>| self@.contains_key(k) && self@[k] == usize::MAX;
    }

    /// Every name the generator has handed out: each used name, numbered
    /// from 0 up to its count.
    pub closed spec fn issued(&self) -> Set<Seq<char>> {
        issued_names(self@)
    }

    /// A generator that has used no name.
    pub fn new() -> (r: NameGenerator)
        ensures
            r@ == Map::<Seq<char>, usize>::empty(),
            r.made() == 0,
            r.issued() == Set::<Seq<char>>::empty(),
    {
        NameGenerator { used_names: Vec::new(), made: Ghost(0) }
    }

    /// Whether `name` can be numbered once more without the count
    /// overflowing.
    pub fn can_generate(&self, name: &str) -> (r: bool)
        ensures
            r == !(self@.contains_key(name@) && self@[name@] == usize::MAX),
    {
        let key = name.to_owned();
        match find_binding(&self.used_names, &key) {
            Some(c) => c < usize::MAX,
            None => true,
        }
    }

    /// A new name: `name`, an underscore and how often `name` was used
    /// before (0 the first time).
    pub fn generate(&mut self, name: &str) -> (r: String)
        requires
            !(old(self)@.contains_key(name@) && old(self)@[name@] == usize::MAX),
        ensures
            old(self)@.contains_key(name@) ==> final(self)@ == old(self)@.insert(name@, (old(self)@[name@] + 1) as usize),
            !old(self)@.contains_key(name@) ==> final(self)@ == old(self)@.insert(name@, 0),
            r@ == spec_generated_name(name@, final(self)@[name@] as nat),
            final(self).made() == old(self).made() + 1,
            (final(self)@, r@) == gen_step(old(self)@, name@),
            !old(self).issued().contains(r@),
            final(self).issued() == old(self).issued().insert(r@),
    {
        proof {
            use_type_invariant(&*self);
        }
        let key = name.to_owned();
        let count: usize = match find_binding(&self.used_names, &key) {
            Some(c) => c + 1,
            None => 0,
        };
        let ghost old_used = self.used_names@;
        let ghost m = self.made@;
        let mut used: Vec<(String, usize)> = Vec::new();
        std::mem::swap(&mut used, &mut self.used_names);
        self.made = Ghost(m + 1);
        used.push((key, count));
        proof {
            assert(used@.drop_last() =~= old_used);
            assert forall|k: Seq<char>| bindings_map(used@).contains_key(k) implies bindings_map(used@)[k] < m + 1 by {
                if k != name@ {
                    assert(bindings_map(old_used).contains_key(k));
                }
            }
        }
        self.used_names = used;
        let mut out = name.to_owned();
        out.append("_");
        append_decimal(&mut out, count);
        proof {
            reveal_strlit("_");
            assert(out@ =~= spec_generated_name(name@, count as nat));
            self.lemma_issued_step(old(self)@, name@, count as nat);
        }
        out
    }

    /// Numbering `name` once more adds exactly the new name to what was
    /// handed out, and the new name was not handed out before.
    proof fn lemma_issued_step(&self, before: Map<Seq<char>, usize>, name: Seq<char>, count: nat)
        requires
            before.contains_key(name) ==> count == before[name] + 1,
            !before.contains_key(name) ==> count == 0,
            count <= usize::MAX,
            self@ == before.insert(name, count as usize),
        ensures
            !issued_names(before).contains(spec_generated_name(name, count)),
            self.issued() == issued_names(before).insert(spec_generated_name(name, count)),
    {
        lemma_issued_names_step(before, name, count);
    }
}

/// The names handed out by a generator whose counts are `m`: each name
/// numbered from 0 up to its count.
pub open spec fn issued_names(m: Map<Seq<char>, usize>) -> Set<Seq<char>> {
    Set::new(|s: Seq<char>| exists|k: Seq<char>, j: nat| m.contains_key(k) && j <= m[k] && s == #[trigger] spec_generated_name(k, j))
}

/// No two blocks of a function bear the same name.
pub open spec fn block_names_distinct(bbs: Seq<Option<String>>) -> bool {
    forall|i: int, j: int| 0 <= i < j < bbs.len() && bbs[i] is Some && bbs[j] is Some ==> (#[trigger] bbs[i])->0@ != (#[trigger] bbs[j])->0@
}

/// Every block is named with a name from `issued`, and no two blocks share
/// a name.
#[verifier::opaque]
pub open spec fn names_from(bbs: Seq<Option<String>>, issued: Set<Seq<char>>) -> bool {
    &&& forall|i: int| 0 <= i < bbs.len() ==> (#[trigger] bbs[i]) is Some && issued.contains(bbs[i]->0@)
    &&& block_names_distinct(bbs)
}

/// A function with no blocks yet meets `names_from` for any names.
pub proof fn lemma_names_from_empty(issued: Set<Seq<char>>)
    ensures
        names_from(Seq::<Option<String>>::empty(), issued),
{
    reveal(names_from);
}

/// Adding a block whose name was not handed out before keeps the blocks'
/// names apart.
pub proof fn lemma_names_from_push(bbs: Seq<Option<String>>, issued: Set<Seq<char>>, n: String)
    requires
        names_from(bbs, issued),
        !issued.contains(n@),
    ensures
        names_from(bbs.push(Some(n)), issued.insert(n@)),
{
    reveal(names_from);
    let b = bbs.push(Some(n));
    assert forall|i: int| 0 <= i < b.len() implies (#[trigger] b[i]) is Some && issued.insert(n@).contains(b[i]->0@) by {
        if i < bbs.len() {
            assert(b[i] == bbs[i]);
        }
    }
    assert forall|i: int, j: int| 0 <= i < j < b.len() && b[i] is Some && b[j] is Some implies (#[trigger] b[i])->0@ != (#[trigger] b[j])->0@ by {
        assert(b[i] == bbs[i]);
        if j < bbs.len() {
            assert(b[j] == bbs[j]);
        } else {
            assert(issued.contains(bbs[i]->0@));
        }
    }
}

/// Blocks named from handed-out names bear distinct names.
pub proof fn lemma_names_from_distinct(bbs: Seq<Option<String>>, issued: Set<Seq<char>>)
    requires
        names_from(bbs, issued),
    ensures
        block_names_distinct(bbs),
{
    reveal(names_from);
}


/// Numbering `name` once more under the counts `before` makes a name that
/// was not handed out before, and adds just that name to those handed out.
pub proof fn lemma_issued_names_step(before: Map<Seq<char>, usize>, name: Seq<char>, count: nat)
    requires
        before.contains_key(name) ==> count == before[name] + 1,
        !before.contains_key(name) ==> count == 0,
        count <= usize::MAX,
    ensures
        !issued_names(before).contains(spec_generated_name(name, count)),
        issued_names(before.insert(name, count as usize)) == issued_names(before).insert(spec_generated_name(name, count)),
{
    let after = before.insert(name, count as usize);
    let r = spec_generated_name(name, count);
    if issued_names(before).contains(r) {
        let (k, j) = choose|k: Seq<char>, j: nat| before.contains_key(k) && j <= before[k] && r == #[trigger] spec_generated_name(k, j);
        lemma_generated_name_injective(k, j, name, count);
    }
    assert forall|s: Seq<char>| #[trigger] issued_names(after).contains(s) implies issued_names(before).insert(r).contains(s) by {
        let (k, j) = choose|k: Seq<char>, j: nat| after.contains_key(k) && j <= after[k] && s == #[trigger] spec_generated_name(k, j);
        if k != name || j < count {
            assert(before.contains_key(k));
        }
    }
    assert forall|s: Seq<char>| #[trigger] issued_names(before).insert(r).contains(s) implies issued_names(after).contains(s) by {
        if s == r {
            assert(after.contains_key(name) && count <= after[name] && s == spec_generated_name(name, count));
        } else {
            let (k, j) = choose|k: Seq<char>, j: nat| before.contains_key(k) && j <= before[k] && s == #[trigger] spec_generated_name(k, j);
            assert(after.contains_key(k));
        }
    }
    assert(issued_names(after) =~= issued_names(before).insert(r));
}

/// Numbering `name` once more under the counts `m`: the counts after it
/// and the name made.
pub open spec fn gen_step(m: Map<Seq<char>, usize>, name: Seq<char>) -> (Map<Seq<char>, usize>, Seq<char>) {
    let c: nat = if m.contains_key(name) { (m[name] + 1) as nat } else { 0 };
    (m.insert(name, c as usize), spec_generated_name(name, c))
}

/// Numbering each of `bases` in turn from the counts `m`: the counts after
/// and the names made, in order.
pub open spec fn gen_run(m: Map<Seq<char>, usize>, bases: Seq<Seq<char>>) -> (Map<Seq<char>, usize>, Seq<Seq<char>>)
    decreases bases.len(),
{
    if bases.len() == 0 {
        (m, Seq::empty())
    } else {
        let (m1, out) = gen_run(m, bases.drop_last());
        let (m2, n) = gen_step(m1, bases.last());
        (m2, out.push(n))
    }
}

/// Every count of `m` can grow by `k` more and stay below the largest count.
pub open spec fn counts_below(m: Map<Seq<char>, usize>, k: nat) -> bool {
    forall|n: Seq<char>| #[trigger] m.contains_key(n) ==> m[n] + k < usize::MAX
}

proof fn lemma_gen_run(m: Map<Seq<char>, usize>, bases: Seq<Seq<char>>, k: nat)
    requires
        counts_below(m, k),
        bases.len() <= k,
        k < usize::MAX,
    ensures
        counts_below(gen_run(m, bases).0, (k - bases.len()) as nat),
        gen_run(m, bases).1.len() == bases.len(),
        forall|s: Seq<char>| #[trigger] issued_names(gen_run(m, bases).0).contains(s) <==> (issued_names(m).contains(s) || gen_run(m, bases).1.contains(s)),
        forall|i: int, j: int| 0 <= i < j < bases.len() ==> gen_run(m, bases).1[i] != gen_run(m, bases).1[j],
        forall|i: int| 0 <= i < bases.len() ==> !issued_names(m).contains(#[trigger] gen_run(m, bases).1[i]),
    decreases bases.len(),
{
    if bases.len() > 0 {
        let p = bases.drop_last();
        lemma_gen_run(m, p, k);
        let (m1, out) = gen_run(m, p);
        let name = bases.last();
        let c: nat = if m1.contains_key(name) { (m1[name] + 1) as nat } else { 0 };
        lemma_issued_names_step(m1, name, c);
        let m2 = m1.insert(name, c as usize);
        let n = spec_generated_name(name, c);
        let out2 = out.push(n);
        assert forall|x: Seq<char>| #[trigger] m2.contains_key(x) implies m2[x] + (k - bases.len()) < usize::MAX by {
            if x != name {
                assert(m1.contains_key(x));
            }
        }
        assert forall|s: Seq<char>| #[trigger] issued_names(m2).contains(s) <==> (issued_names(m).contains(s) || out2.contains(s)) by {
            if out2.contains(s) && s != n {
                let i = choose|i: int| 0 <= i < out2.len() && out2[i] == s;
                assert(out.contains(s)) by {
                    assert(out[i] == s);
                }
            }
            if out.contains(s) {
                let i = choose|i: int| 0 <= i < out.len() && out[i] == s;
                assert(out2[i] == s);
            }
            if s == n {
                assert(out2[out.len() as int] == n);
            }
        }
        assert forall|i: int, j: int| 0 <= i < j < bases.len() implies out2[i] != out2[j] by {
            if j < p.len() {
                assert(out2[i] == out[i] && out2[j] == out[j]);
            } else {
                assert(out2[i] == out[i]);
                assert(issued_names(m1).contains(out[i]));
            }
        }
        assert forall|i: int| 0 <= i < bases.len() implies !issued_names(m).contains(#[trigger] out2[i]) by {
            if i < p.len() {
                assert(out2[i] == out[i]);
            } else {
                assert(out2[i] == n);
            }
        }
    }
}

/// A generator never hands out a name twice: over any run of numberings in
/// which no count overflows, the names made are pairwise distinct and
/// differ from every name handed out before the run. (Each call of
/// `NameGenerator::generate` is one step of such a run: `gen_step`.)
pub proof fn law_generator_run_distinct(m: Map<Seq<char>, usize>, bases: Seq<Seq<char>>)
    requires
        counts_below(m, bases.len()),
        bases.len() < usize::MAX,
    ensures
        forall|i: int, j: int| 0 <= i < j < bases.len() ==> gen_run(m, bases).1[i] != gen_run(m, bases).1[j],
        forall|i: int| 0 <= i < bases.len() ==> !issued_names(m).contains(#[trigger] gen_run(m, bases).1[i]),
{
    lemma_gen_run(m, bases, bases.len());
}

/// No digit of a decimal rendering is an underscore.
proof fn lemma_decimal_no_underscore(n: nat)
    ensures
        forall|i: int| 0 <= i < decimal(n).len() ==> decimal(n)[i] != '_',
    decreases n,
{
    if n < 10 {
        assert(decimal(n)[0] == digit_char(n));
    } else {
        lemma_decimal_no_underscore(n / 10);
        let d = decimal(n / 10);
        assert(decimal(n) == d.push(digit_char(n % 10)));
        assert forall|i: int| 0 <= i < decimal(n).len() implies decimal(n)[i] != '_' by {
            if i < d.len() {
                assert(decimal(n)[i] == d[i]);
            }
        }
    }
}

/// A generated name determines the name and the count it was made from.
proof fn lemma_generated_name_injective(k: Seq<char>, j: nat, n: Seq<char>, c: nat)
    requires
        spec_generated_name(k, j) == spec_generated_name(n, c),
    ensures
        k == n,
        j == c,
{
    let a = spec_generated_name(k, j);
    let b = spec_generated_name(n, c);
    lemma_decimal_no_underscore(j);
    lemma_decimal_no_underscore(c);
    assert(a.len() == k.len() + 1 + decimal(j).len());
    assert(b.len() == n.len() + 1 + decimal(c).len());
    if k.len() < n.len() {
        assert(b[n.len() as int] == '_');
        assert(a[n.len() as int] == decimal(j)[n.len() - k.len() - 1]);
    } else if n.len() < k.len() {
        assert(a[k.len() as int] == '_');
        assert(b[k.len() as int] == decimal(c)[k.len() - n.len() - 1]);
    } else {
        assert(a.subrange(0, k.len() as int) =~= k);
        assert(b.subrange(0, n.len() as int) =~= n);
        assert(a.subrange(k.len() + 1int, a.len() as int) =~= decimal(j));
        assert(b.subrange(n.len() + 1int, b.len() as int) =~= decimal(c));
        lemma_decimal_injective(j, c);
    }
}

/// A name bound somewhere in the scopes is found by the lookup, and what is
/// found is bound in some scope.
pub proof fn lemma_scoped_lookup<T>(s: Seq<Map<Seq<char>, T>>, n: Seq<char>)
    ensures
        scoped_lookup(s, n) is Some <==> exists|i: int| 0 <= i < s.len() && s[i].contains_key(n),
        scoped_lookup(s, n) matches Some(v) ==> exists|i: int| 0 <= i < s.len() && s[i].contains_key(n) && s[i][n] == v,
    decreases s.len(),
{
    if s.len() > 0 {
        lemma_scoped_lookup(s.drop_last(), n);
        if !s.last().contains_key(n) {
            if exists|i: int| 0 <= i < s.len() && s[i].contains_key(n) {
                let i = choose|i: int| 0 <= i < s.len() && s[i].contains_key(n);
                assert(s.drop_last()[i] == s[i]);
            }
            if scoped_lookup(s, n) is Some {
                let i = choose|i: int| 0 <= i < s.drop_last().len() && s.drop_last()[i].contains_key(n) && s.drop_last()[i][n] == scoped_lookup(s, n)->0;
                assert(s.drop_last()[i] == s[i]);
            }
        }
    }
}

/// The names bound by a map of values and functions.
pub open spec fn names_of(svm: SymbolValueMap<Value, Function>) -> Names {
    Names {
        vals: Seq::new(svm.values().len(), |i: int| svm.values()[i].dom()),
        funcs: Seq::new(svm.functions().len(), |i: int| svm.functions()[i].dom()),
    }
}

/// Binding a name to a valid value in the current scope binds it in the
/// names, and keeps the bindings valid.
pub proof fn lemma_names_add_value(a: SymbolValueMap<Value, Function>, b: SymbolValueMap<Value, Function>, id: Seq<char>, v: Value, nv: nat, g: nat, f: nat)
    requires
        a.wf(),
        b.values() == a.values().update(a.values().len() - 1, a.values().last().insert(id, v)),
        b.functions() == a.functions(),
        bindings_ok(a, nv, g, f),
        value_ok(v, nv, g),
    ensures
        names_of(b) == (Names { vals: bind(names_of(a).vals, id), funcs: names_of(a).funcs }),
        bindings_ok(b, nv, g, f),
{
    a.lemma_wf();
    let last = a.values().len() - 1;
    assert(b.values()[last].dom() =~= a.values()[last].dom().insert(id));
    assert(names_of(b).vals =~= bind(names_of(a).vals, id));
    assert(names_of(b).funcs =~= names_of(a).funcs);
    assert forall|i: int, n: Seq<char>| 0 <= i < b.values().len() && #[trigger] b.values()[i].contains_key(n)
        implies value_ok(b.values()[i][n], nv, g) by {
        if !(i == last && n == id) {
            assert(a.values()[i].contains_key(n));
        }
    }
}

/// Entering a scope adds an empty innermost scope to the names, and keeps
/// the bindings valid.
pub proof fn lemma_names_enter(a: SymbolValueMap<Value, Function>, b: SymbolValueMap<Value, Function>, nv: nat, g: nat, f: nat)
    requires
        b.values() == a.values().push(Map::empty()),
        b.functions() == a.functions().push(Map::empty()),
        bindings_ok(a, nv, g, f),
    ensures
        names_of(b) == names_enter(names_of(a)),
        bindings_ok(b, nv, g, f),
{
    assert(names_of(b).vals =~= names_enter(names_of(a)).vals) by {
        assert(Map::<Seq<char>, Value>::empty().dom() =~= Set::empty());
    }
    assert(names_of(b).funcs =~= names_enter(names_of(a)).funcs) by {
        assert(Map::<Seq<char>, Function>::empty().dom() =~= Set::empty());
    }
    assert forall|i: int, n: Seq<char>| 0 <= i < b.values().len() && #[trigger] b.values()[i].contains_key(n)
        implies value_ok(b.values()[i][n], nv, g) by {
        assert(a.values()[i].contains_key(n));
    }
    assert forall|i: int, n: Seq<char>| 0 <= i < b.functions().len() && #[trigger] b.functions()[i].contains_key(n)
        implies b.functions()[i][n].0 < f by {
        assert(a.functions()[i].contains_key(n));
    }
}

/// Leaving a scope drops the innermost scope of the names, and keeps the
/// bindings valid.
pub proof fn lemma_names_exit(a: SymbolValueMap<Value, Function>, b: SymbolValueMap<Value, Function>, nv: nat, g: nat, f: nat)
    requires
        a.values().len() > 1,
        a.functions().len() == a.values().len(),
        b.values() == a.values().drop_last(),
        b.functions() == a.functions().drop_last(),
        bindings_ok(a, nv, g, f),
    ensures
        names_exit(names_of(a)) == Some(names_of(b)),
        bindings_ok(b, nv, g, f),
{
    assert(names_of(b).vals =~= names_of(a).vals.drop_last());
    assert(names_of(b).funcs =~= names_of(a).funcs.drop_last());
    assert forall|i: int, n: Seq<char>| 0 <= i < b.values().len() && #[trigger] b.values()[i].contains_key(n)
        implies value_ok(b.values()[i][n], nv, g) by {
        assert(a.values()[i].contains_key(n));
    }
    assert forall|i: int, n: Seq<char>| 0 <= i < b.functions().len() && #[trigger] b.functions()[i].contains_key(n)
        implies b.functions()[i][n].0 < f by {
        assert(a.functions()[i].contains_key(n));
    }
}

/// Binding a name to a valid function in the current scope binds it in the
/// names, and keeps the bindings valid.
pub proof fn lemma_names_add_function(a: SymbolValueMap<Value, Function>, b: SymbolValueMap<Value, Function>, id: Seq<char>, func: Function, nv: nat, g: nat, f: nat)
    requires
        a.wf(),
        b.functions() == a.functions().update(a.functions().len() - 1, a.functions().last().insert(id, func)),
        b.values() == a.values(),
        bindings_ok(a, nv, g, f),
        func.0 < f,
    ensures
        names_of(b) == (Names { vals: names_of(a).vals, funcs: bind(names_of(a).funcs, id) }),
        bindings_ok(b, nv, g, f),
{
    a.lemma_wf();
    let last = a.functions().len() - 1;
    assert(b.functions()[last].dom() =~= a.functions()[last].dom().insert(id));
    assert(names_of(b).funcs =~= bind(names_of(a).funcs, id));
    assert(names_of(b).vals =~= names_of(a).vals);
    assert forall|i: int, n: Seq<char>| 0 <= i < b.functions().len() && #[trigger] b.functions()[i].contains_key(n)
        implies b.functions()[i][n].0 < f by {
        if !(i == last && n == id) {
            assert(a.functions()[i].contains_key(n));
        }
    }
}

/// Bindings valid for some values, globals and functions are valid for more.
pub proof fn lemma_bindings_ok_grow(svm: SymbolValueMap<Value, Function>, nv: nat, g: nat, f: nat, nv2: nat, g2: nat, f2: nat)
    requires
        bindings_ok(svm, nv, g, f),
        nv <= nv2,
        g <= g2,
        f <= f2,
    ensures
        bindings_ok(svm, nv2, g2, f2),
{
    assert forall|i: int, n: Seq<char>| 0 <= i < svm.values().len() && #[trigger] svm.values()[i].contains_key(n)
        implies value_ok(svm.values()[i][n], nv2, g2) by {
        assert(value_ok(svm.values()[i][n], nv, g));
    }
    assert forall|i: int, n: Seq<char>| 0 <= i < svm.functions().len() && #[trigger] svm.functions()[i].contains_key(n)
        implies svm.functions()[i][n].0 < f2 by {
        assert(svm.functions()[i][n].0 < f);
    }
}

/// The builder's map between items: one scope, binding only globals and
/// functions of the program.
pub open spec fn top_ok(svm: SymbolValueMap<Value, Function>, prog: Program) -> bool {
    &&& svm.wf()
    &&& svm.values().len() == 1
    &&& bindings_ok(svm, 0, prog.values@.len(), prog.funcs@.len())
}

/// The types of a function's parameters, in order.
pub open spec fn param_types(ps: Seq<(IdentifierView, SpecType)>) -> Seq<SpecType> {
    Seq::new(ps.len(), |i: int| ps[i].1)
}

/// What building an item did to the program: a function definition adds
/// its function; a global variable declaration adds the two global values
/// of each entry, in order; a global constant declaration adds nothing.
pub open spec fn item_effect(a: Program, b: Program, it: ItemView) -> bool {
    match it {
        ItemView::FuncDef(fd) => {
            &&& b.values@ == a.values@
            &&& b.funcs@.len() == a.funcs@.len() + 1
            &&& b.funcs@.drop_last() == a.funcs@
            &&& header_ok(b.funcs@.last(), fd.ident.name, param_types(fd.fparams), fd.return_type)
            &&& is_def(b.funcs@.last())
            &&& params_stored(b.funcs@.last(), param_types(fd.fparams))
        },
        ItemView::GlobalVar(StmtView::VarDecl(v)) => globals_added(a, b, v),
        _ => b.funcs@ == a.funcs@ && b.values@ == a.values@,
    }
}

/// `b` is `a` with the two global values of each entry added, in order.
pub open spec fn globals_added(a: Program, b: Program, v: Seq<(SpecType, IdentifierView, Option<ExprView>)>) -> bool {
    &&& b.funcs@ == a.funcs@
    &&& b.values@.len() == a.values@.len() + 2 * v.len()
    &&& forall|j: int| 0 <= j < a.values@.len() ==> #[trigger] b.values@[j] == a.values@[j]
    &&& forall|k: int| 0 <= k < v.len() ==> #[trigger] global_ok(b.values@[a.values@.len() + 2 * k], b.values@[a.values@.len() + 2 * k + 1], v[k], (a.values@.len() + 2 * k) as nat)
}

/// Each name a variable declaration declares, where no later entry declares
/// it again, is bound to its allocation, the second of the two global
/// values made for its entry from position `g0` on.
pub open spec fn globals_bound(svm: SymbolValueMap<Value, Function>, g0: nat, v: Seq<(SpecType, IdentifierView, Option<ExprView>)>) -> bool {
    forall|k: int| 0 <= k < v.len() && (forall|j: int| k < j < v.len() ==> v[j].1.name != v[k].1.name)
        ==> (scoped_lookup(svm.values(), (#[trigger] v[k]).1.name) matches Some(Value::Global(x)) && x == g0 + 2 * k + 1)
}

/// What a built item binds, in a program that had `n_funcs` functions and
/// `g0` global values before it: a function definition binds its name to
/// the function added; a variable declaration binds its names to their
/// allocations.
pub open spec fn item_bound(svm: SymbolValueMap<Value, Function>, n_funcs: nat, g0: nat, it: ItemView) -> bool {
    match it {
        ItemView::FuncDef(fd) => scoped_lookup(svm.functions(), fd.ident.name) matches Some(Function(x)) && x == n_funcs,
        ItemView::GlobalVar(StmtView::VarDecl(v)) => globals_bound(svm, g0, v),
        _ => true,
    }
}

/// The program built from a compile unit: well-formed; the runtime library
/// functions declared first, in order, then one function per function
/// definition, in order, each storing its arguments in slots first and
/// ending some block with a return; two global values per entry of the
/// global variable declarations, in order.
pub open spec fn program_ok(prog: Program, items: Seq<ItemView>) -> bool {
    let nb = spec_builtin_functions().len();
    let defs = defined_funcs(items);
    let globals = global_entries(items);
    &&& prog.wf()
    &&& prog.funcs@.len() == nb + defs.len()
    &&& forall|k: int| 0 <= k < nb ==> #[trigger] is_decl(prog.funcs@[k]) && header_ok(prog.funcs@[k], spec_builtin_functions()[k].0,
        spec_builtin_functions()[k].1.ty->Function_0, *spec_builtin_functions()[k].1.ty->Function_1)
    &&& forall|j: int| 0 <= j < defs.len() ==> #[trigger] header_ok(prog.funcs@[nb + j], defs[j].ident.name, param_types(defs[j].fparams), defs[j].return_type)
        && is_def(prog.funcs@[nb + j]) && params_stored(prog.funcs@[nb + j], param_types(defs[j].fparams))
    &&& prog.values@.len() == 2 * globals.len()
    &&& forall|k: int| 0 <= k < globals.len() ==> #[trigger] global_ok(prog.values@[2 * k], prog.values@[2 * k + 1], globals[k], (2 * k) as nat)
}

/// Every runtime library function has a function type.
proof fn lemma_builtins_are_functions()
    ensures
        forall|k: int| 0 <= k < spec_builtin_functions().len() ==> (#[trigger] spec_builtin_functions()[k]).1.ty is Function,
{
    let b = spec_builtin_functions();
    assert(b.len() == 8);
    assert(b[0].1.ty is Function);
    assert(b[1].1.ty is Function);
    assert(b[2].1.ty is Function);
    assert(b[3].1.ty is Function);
    assert(b[4].1.ty is Function);
    assert(b[5].1.ty is Function);
    assert(b[6].1.ty is Function);
    assert(b[7].1.ty is Function);
}

/// The program after one more item is the program of one more item.
#[verifier::spinoff_prover]
proof fn lemma_program_ok_step(p0: Program, p1: Program, items: Seq<ItemView>, j: int)
    requires
        0 <= j < items.len(),
        program_ok(p0, items.take(j)),
        item_effect(p0, p1, items[j]),
        p1.wf(),
    ensures
        program_ok(p1, items.take(j + 1)),
{
    let a = items.take(j);
    let b = items.take(j + 1);
    assert(b.drop_last() =~= a);
    assert(b.last() == items[j]);
    let nb = spec_builtin_functions().len() as int;
    let da = defined_funcs(a);
    let db = defined_funcs(b);
    let ga = global_entries(a);
    let gb = global_entries(b);
    match items[j] {
        ItemView::FuncDef(fd) => {
            assert(db == da.push(fd));
            assert(gb == ga);
            assert forall|k: int| 0 <= k < nb implies #[trigger] is_decl(p1.funcs@[k]) && header_ok(p1.funcs@[k], spec_builtin_functions()[k].0,
                spec_builtin_functions()[k].1.ty->Function_0, *spec_builtin_functions()[k].1.ty->Function_1) by {
                assert(p1.funcs@[k] == p1.funcs@.drop_last()[k]);
            }
            assert forall|m: int| 0 <= m < db.len() implies #[trigger] header_ok(p1.funcs@[nb + m], db[m].ident.name, param_types(db[m].fparams), db[m].return_type)
                && is_def(p1.funcs@[nb + m]) && params_stored(p1.funcs@[nb + m], param_types(db[m].fparams)) by {
                if m < da.len() {
                    assert(p1.funcs@[nb + m] == p1.funcs@.drop_last()[nb + m]);
                }
            }
        },
        ItemView::GlobalVar(st) => {
            assert(db == da);
            match st {
                StmtView::VarDecl(v) => {
                    assert(gb == ga + v);
                    assert forall|k: int| 0 <= k < gb.len() implies #[trigger] global_ok(p1.values@[2 * k], p1.values@[2 * k + 1], gb[k], (2 * k) as nat) by {
                        if k < ga.len() {
                            assert(p1.values@[2 * k] == p0.values@[2 * k]);
                            assert(p1.values@[2 * k + 1] == p0.values@[2 * k + 1]);
                        } else {
                            let m = k - ga.len();
                            assert(gb[k] == v[m]);
                            assert(global_ok(p1.values@[p0.values@.len() + 2 * m], p1.values@[p0.values@.len() + 2 * m + 1], v[m], (p0.values@.len() + 2 * m) as nat));
                        }
                    }
                },
                _ => {
                    assert(gb == ga);
                },
            }
        },
    }
}

/// `b` has as many scopes as `a`, and all of them but the innermost are
/// those of `a`.
pub open spec fn outer_kept(a: SymbolValueMap<Value, Function>, b: SymbolValueMap<Value, Function>) -> bool {
    &&& b.values().len() == a.values().len()
    &&& b.functions().len() == a.functions().len()
    &&& forall|i: int| 0 <= i < a.values().len() - 1 ==> #[trigger] b.values()[i] == a.values()[i]
    &&& forall|i: int| 0 <= i < a.functions().len() - 1 ==> #[trigger] b.functions()[i] == a.functions()[i]
}

pub proof fn lemma_outer_kept_trans(a: SymbolValueMap<Value, Function>, b: SymbolValueMap<Value, Function>, c: SymbolValueMap<Value, Function>)
    requires
        outer_kept(a, b),
        outer_kept(b, c),
    ensures
        outer_kept(a, c),
{
    assert forall|i: int| 0 <= i < a.values().len() - 1 implies #[trigger] c.values()[i] == a.values()[i] by {
        assert(b.values()[i] == a.values()[i]);
    }
    assert forall|i: int| 0 <= i < a.functions().len() - 1 implies #[trigger] c.functions()[i] == a.functions()[i] by {
        assert(b.functions()[i] == a.functions()[i]);
    }
}

/// Every value that the map binds is one that a function with `nv` values
/// in a program with `g` globals may use, and every function one of the
/// `f` functions.
pub open spec fn bindings_ok(svm: SymbolValueMap<Value, Function>, nv: nat, g: nat, f: nat) -> bool {
    &&& forall|i: int, n: Seq<char>| 0 <= i < svm.values().len() && #[trigger] svm.values()[i].contains_key(n)
        ==> value_ok(svm.values()[i][n], nv, g)
    &&& forall|i: int, n: Seq<char>| 0 <= i < svm.functions().len() && #[trigger] svm.functions()[i].contains_key(n)
        ==> svm.functions()[i][n].0 < f
}

/// Some name was numbered as often as a count can hold.
pub open spec fn exhausted(m: Map<Seq<char>, usize>) -> bool {
    exists|k: Seq<char>| m.contains_key(k) && m[k] == usize::MAX
}

/// How the last instruction of the block where code goes on relates to
/// the effect `l`, for code built from block `from` that ends in block `to`.
pub open spec fn last_ok(l: Last, a: FunctionData, b: FunctionData, from: BasicBlock, to: BasicBlock) -> bool {
    match l {
        Last::Keep => to == from && b.insts(to) == a.insts(from),
        Last::Ret => b.insts(to).len() > 0 && is_return(b.values@[b.insts(to).last()->Local_0 as int]),
        Last::Other => b.insts(to).len() > 0 && !is_return(b.values@[b.insts(to).last()->Local_0 as int]),
        Last::Empty => b.insts(to).len() == 0,
    }
}

/// What a built expression gives: its value, and the context where code
/// goes on, related to the context it was built in.
pub open spec fn expr_result_ok(v: Value, c: Context, l: Last, a: FunctionData, b: FunctionData, ctx: Context) -> bool {
    &&& c.while_begin == ctx.while_begin
    &&& c.while_end == ctx.while_end
    &&& b.in_layout(c.in_block)
    &&& (c.in_block == ctx.in_block || c.in_block.0 >= a.bbs@.len())
    &&& v is Local
    &&& a.values@.len() <= v->Local_0 < b.values@.len()
    &&& last_ok(l, a, b, ctx.in_block, c.in_block)
}

/// Where a unary `-` or `!`, or a binary operator other than `&&` and
/// `||`, puts its instruction: last in the block where code goes on; and
/// a binary operator's left operand is computed before its right one.
pub open spec fn op_placed(b: FunctionData, v: Value, c: Context, e: ExprView) -> bool {
    match e {
        ExprView::Unary(op, _) => op != UnaryOp::Plus ==> b.insts(c.in_block).len() > 0 && b.insts(c.in_block).last() == v,
        ExprView::Binary(_, op, _) => (op != BinaryOp::LogicalAnd && op != BinaryOp::LogicalOr) ==> {
            &&& b.insts(c.in_block).len() > 0
            &&& b.insts(c.in_block).last() == v
            &&& b.values@[v->Local_0 as int] matches ValueKind::Binary(_, x, y) && x->Local_0 < y->Local_0
        },
        _ => true,
    }
}

/// The Koopa IR operator of a SysY operator other than `&&` and `||`.
pub open spec fn koopa_binop(op: BinaryOp) -> IrBinaryOp {
    match op {
        BinaryOp::Add => IrBinaryOp::Add,
        BinaryOp::Sub => IrBinaryOp::Sub,
        BinaryOp::Mul => IrBinaryOp::Mul,
        BinaryOp::Div => IrBinaryOp::Div,
        BinaryOp::Rem => IrBinaryOp::Mod,
        BinaryOp::Less => IrBinaryOp::Lt,
        BinaryOp::Le => IrBinaryOp::Le,
        BinaryOp::Eq => IrBinaryOp::Eq,
        BinaryOp::Ge => IrBinaryOp::Ge,
        BinaryOp::Greater => IrBinaryOp::Gt,
        BinaryOp::NotEq => IrBinaryOp::NotEq,
        BinaryOp::LogicalAnd => IrBinaryOp::NotEq,
        BinaryOp::LogicalOr => IrBinaryOp::NotEq,
    }
}

/// The local value `v` of the function computes the expression `e`, with
/// names bound as in `svm`: a literal or a constant is that integer; a
/// variable is a load of the slot its name is bound to; `+e` is the value
/// of `e`; `-e` and `!e` subtract `e` from, and compare it with, a zero; a
/// binary operation applies its Koopa operator to the values of its
/// operands, except `&&` and `||`, which load the slot that their
/// short-circuit evaluation stores the result in; a call calls the
/// function its name is bound to on the values of its arguments.
pub open spec fn denotes(fd: FunctionData, svm: SymbolValueMap<Value, Function>, v: Value, e: ExprView) -> bool
    decreases e, 0int,
{
    &&& v is Local
    &&& v->Local_0 < fd.values@.len()
    &&& match e {
        ExprView::IntLit(i) => fd.values@[v->Local_0 as int] == ValueKind::Integer(i),
        ExprView::Ident(id) => match id.status {
            ResolveStatusView::Resolved(info) => if info.qualifier == Qualifier::Const {
                info.const_val matches Some(c) && fd.values@[v->Local_0 as int] == ValueKind::Integer(c)
            } else {
                scoped_lookup(svm.values(), id.name) matches Some(p) && fd.values@[v->Local_0 as int] == ValueKind::Load(p)
            },
            ResolveStatusView::Unresolved => false,
        },
        ExprView::Unary(op, b) => if op == UnaryOp::Plus {
            denotes(fd, svm, v, *b)
        } else {
            fd.values@[v->Local_0 as int] matches ValueKind::Binary(kop, z, x)
                && kop == (if op == UnaryOp::Minus { IrBinaryOp::Sub } else { IrBinaryOp::Eq })
                && z is Local && z->Local_0 < fd.values@.len() && fd.values@[z->Local_0 as int] == ValueKind::Integer(0)
                && denotes(fd, svm, x, *b)
        },
        ExprView::Binary(l, op, r) => if op == BinaryOp::LogicalAnd || op == BinaryOp::LogicalOr {
            fd.values@[v->Local_0 as int] matches ValueKind::Load(p)
                && p is Local && p->Local_0 < fd.values@.len() && fd.values@[p->Local_0 as int] == ValueKind::Alloc(IrType::I32)
        } else {
            fd.values@[v->Local_0 as int] matches ValueKind::Binary(kop, x, y)
                && kop == koopa_binop(op) && denotes(fd, svm, x, *l) && denotes(fd, svm, y, *r)
        },
        ExprView::Call(id, args) => fd.values@[v->Local_0 as int] matches ValueKind::Call(callee, vs)
            && scoped_lookup(svm.functions(), id.name) == Some(callee) && args_denote(fd, svm, vs@, args, 0),
    }
}

/// The values from the `i`-th on compute the arguments from the `i`-th on,
/// one each.
pub open spec fn args_denote(fd: FunctionData, svm: SymbolValueMap<Value, Function>, vs: Seq<Value>, args: Seq<ExprView>, i: int) -> bool
    decreases args, args.len() - i,
{
    if i < 0 || i >= args.len() {
        vs.len() == args.len()
    } else {
        i < vs.len() && denotes(fd, svm, vs[i], args[i]) && args_denote(fd, svm, vs, args, i + 1)
    }
}

/// `b` has the values of `a`, and maybe more after them.
pub open spec fn values_kept(a: FunctionData, b: FunctionData) -> bool {
    &&& a.values@.len() <= b.values@.len()
    &&& forall|k: int| 0 <= k < a.values@.len() ==> #[trigger] b.values@[k] == a.values@[k]
}

pub proof fn lemma_values_kept_trans(a: FunctionData, b: FunctionData, c: FunctionData)
    requires
        values_kept(a, b),
        values_kept(b, c),
    ensures
        values_kept(a, c),
{
    assert forall|k: int| 0 <= k < a.values@.len() implies #[trigger] c.values@[k] == a.values@[k] by {
        assert(b.values@[k] == a.values@[k]);
    }
}

/// The values from the `i`-th on compute the arguments from the `i`-th on
/// where each of them computes its own.
proof fn lemma_args_denote_each(fd: FunctionData, svm: SymbolValueMap<Value, Function>, vs: Seq<Value>, args: Seq<ExprView>, i: int)
    requires
        0 <= i,
        vs.len() == args.len(),
        forall|j: int| i <= j < args.len() ==> denotes(fd, svm, #[trigger] vs[j], args[j]),
    ensures
        args_denote(fd, svm, vs, args, i),
    decreases args.len() - i,
{
    if i < args.len() {
        lemma_args_denote_each(fd, svm, vs, args, i + 1);
    }
}

/// What a value computes stays so as values are added.
pub proof fn lemma_denotes_kept(a: FunctionData, b: FunctionData, svm: SymbolValueMap<Value, Function>, v: Value, e: ExprView)
    requires
        denotes(a, svm, v, e),
        values_kept(a, b),
    ensures
        denotes(b, svm, v, e),
    decreases e, 0int,
{
    assert(b.values@[v->Local_0 as int] == a.values@[v->Local_0 as int]);
    match e {
        ExprView::Unary(op, x) => {
            if op == UnaryOp::Plus {
                lemma_denotes_kept(a, b, svm, v, *x);
            } else {
                let k = a.values@[v->Local_0 as int];
                let z = k->Binary_1;
                assert(b.values@[z->Local_0 as int] == a.values@[z->Local_0 as int]);
                lemma_denotes_kept(a, b, svm, k->Binary_2, *x);
            }
        },
        ExprView::Binary(l, op, r) => {
            let k = a.values@[v->Local_0 as int];
            if op == BinaryOp::LogicalAnd || op == BinaryOp::LogicalOr {
                let p = k->Load_0;
                assert(b.values@[p->Local_0 as int] == a.values@[p->Local_0 as int]);
            } else {
                lemma_denotes_kept(a, b, svm, k->Binary_1, *l);
                lemma_denotes_kept(a, b, svm, k->Binary_2, *r);
            }
        },
        ExprView::Call(_, args) => {
            let k = a.values@[v->Local_0 as int];
            lemma_args_denote_kept(a, b, svm, k->Call_1@, args, 0);
        },
        _ => {},
    }
}

proof fn lemma_args_denote_kept(a: FunctionData, b: FunctionData, svm: SymbolValueMap<Value, Function>, vs: Seq<Value>, args: Seq<ExprView>, i: int)
    requires
        args_denote(a, svm, vs, args, i),
        values_kept(a, b),
    ensures
        args_denote(b, svm, vs, args, i),
    decreases args, args.len() - i,
{
    if 0 <= i < args.len() {
        lemma_denotes_kept(a, b, svm, vs[i], args[i]);
        lemma_args_denote_kept(a, b, svm, vs, args, i + 1);
    }
}

/// What `&&` or `||` with operands `l` and `r` leaves, built from a block
/// into `a` giving `b`, with its result in the slot `p` and code going on
/// in `c`: of the three blocks it makes, the first (`S`) stores the
/// operator's short-circuit value (0 for `&&`, 1 for `||`) into `p` and
/// jumps to the third (`M`); some block ends with a branch on the value of
/// `l`, to `S` where `l` decides (true for `||`, false for `&&`) and to the
/// second block (`R`) otherwise; the code of `r`, begun in `R`, ends with a
/// store of its value into `p` and a jump to `M`; code goes on in `M`.
#[verifier::opaque]
pub open spec fn short_circuit_ok(a: FunctionData, b: FunctionData, svm: SymbolValueMap<Value, Function>, p: Value, from: BasicBlock, c: Context, l: ExprView, op: BinaryOp, r: ExprView) -> bool {
    let n = a.bbs@.len();
    let s_bb = BasicBlock(n as usize);
    let r_bb = BasicBlock((n + 1) as usize);
    let m_bb = BasicBlock((n + 2) as usize);
    let is_or = op == BinaryOp::LogicalOr;
    &&& b.insts(from).len() > a.insts(from).len()
    &&& b.insts(from)[a.insts(from).len() as int] == p
    &&& c.in_block == m_bb
    &&& b.insts(s_bb).len() == 2
    &&& b.values@[b.insts(s_bb)[0]->Local_0 as int] matches ValueKind::Store(k, q)
        && q == p && k is Local && k->Local_0 < b.values@.len()
        && b.values@[k->Local_0 as int] == ValueKind::Integer(if is_or { 1 } else { 0 })
    &&& b.values@[b.insts(s_bb)[1]->Local_0 as int] == ValueKind::Jump(m_bb)
    &&& exists|lb: BasicBlock| b.in_layout(lb) && (#[trigger] last_kind(b, lb) matches Some(ValueKind::Branch(v, t, e))
        && denotes(b, svm, v, l) && (is_or ==> t == s_bb && e == r_bb) && (!is_or ==> t == r_bb && e == s_bb))
    &&& exists|rb: BasicBlock| b.in_layout(rb) && (rb == r_bb || rb.0 >= n + 3) && #[trigger] b.insts(rb).len() >= 3
        && last_kind(b, rb) == Some(ValueKind::Jump(m_bb))
        && (b.values@[b.insts(rb)[b.insts(rb).len() - 2]->Local_0 as int] matches ValueKind::Store(w, q)
            && q == p && w == b.insts(rb)[b.insts(rb).len() - 3] && is_truth_of(b, svm, w, r))
}

/// `w` compares the value of `r` with 0: it is 1 where `r` is not 0, and 0
/// where it is.
pub open spec fn is_truth_of(b: FunctionData, svm: SymbolValueMap<Value, Function>, w: Value, r: ExprView) -> bool {
    &&& w is Local
    &&& w->Local_0 < b.values@.len()
    &&& b.values@[w->Local_0 as int] matches ValueKind::Binary(kop, v, z)
        && kop == IrBinaryOp::NotEq && denotes(b, svm, v, r)
        && z is Local && z->Local_0 < b.values@.len() && b.values@[z->Local_0 as int] == ValueKind::Integer(0)
}

/// The blocks of a short-circuit evaluation, shown one by one, make up
/// `short_circuit_ok`.
proof fn lemma_short_circuit_intro(a: FunctionData, b: FunctionData, svm: SymbolValueMap<Value, Function>, p: Value, from: BasicBlock, c: Context, l: ExprView, op: BinaryOp, r: ExprView,
    st: Value, k: Value, jmp: Value, lb: BasicBlock, lv: Value, rb: BasicBlock, w: Value)
    requires
        b.insts(from).len() > a.insts(from).len(),
        b.insts(from)[a.insts(from).len() as int] == p,
        c.in_block == BasicBlock((a.bbs@.len() + 2) as usize),
        b.insts(BasicBlock(a.bbs@.len() as usize)) == seq![st, jmp],
        b.values@[st->Local_0 as int] == ValueKind::Store(k, p),
        k is Local && k->Local_0 < b.values@.len(),
        b.values@[k->Local_0 as int] == ValueKind::Integer(if op == BinaryOp::LogicalOr { 1 } else { 0 }),
        b.values@[jmp->Local_0 as int] == ValueKind::Jump(c.in_block),
        b.in_layout(lb),
        op == BinaryOp::LogicalOr ==> last_kind(b, lb) == Some(ValueKind::Branch(lv, BasicBlock(a.bbs@.len() as usize), BasicBlock((a.bbs@.len() + 1) as usize))),
        op != BinaryOp::LogicalOr ==> last_kind(b, lb) == Some(ValueKind::Branch(lv, BasicBlock((a.bbs@.len() + 1) as usize), BasicBlock(a.bbs@.len() as usize))),
        denotes(b, svm, lv, l),
        b.in_layout(rb),
        rb == BasicBlock((a.bbs@.len() + 1) as usize) || rb.0 >= a.bbs@.len() + 3,
        b.insts(rb).len() >= 3,
        b.insts(rb)[b.insts(rb).len() - 3] == w,
        b.values@[b.insts(rb)[b.insts(rb).len() - 2]->Local_0 as int] == ValueKind::Store(w, p),
        is_truth_of(b, svm, w, r),
        last_kind(b, rb) == Some(ValueKind::Jump(c.in_block)),
    ensures
        short_circuit_ok(a, b, svm, p, from, c, l, op, r),
{
    reveal(short_circuit_ok);
    assert(b.insts(rb).len() >= 3);
    assert(last_kind(b, lb) is Some);
}

/// The blocks of a short-circuit evaluation, followed through its steps:
/// `s1` after the left operand, `s2` after the branch on it and the
/// short-circuit block, `s3` after the right operand, `b` at the end.
proof fn lemma_short_circuit_final(a: FunctionData, s0: FunctionData, s1: FunctionData, s2: FunctionData, s3: FunctionData, b: FunctionData,
    svm: SymbolValueMap<Value, Function>, p: Value, from: BasicBlock, c: Context, l: ExprView, op: BinaryOp, r: ExprView,
    lb: BasicBlock, lv: Value, rb: BasicBlock, rv: Value, jmp: Value)
    requires
        ({
            let n = a.bbs@.len();
            let nv = s1.values@.len();
            let m = s3.values@.len();
            let is_or = op == BinaryOp::LogicalOr;
            let s_bb = BasicBlock(n as usize);
            let r_bb = BasicBlock((n + 1) as usize);
            &&& s0.insts(from) == a.insts(from).push(p)
            &&& grows(s0, b)
            &&& s0.wf_layout()
            &&& b.wf_layout()
            &&& s0.in_layout(from)
            &&& c.in_block == BasicBlock((n + 2) as usize)
            &&& s2.values@.len() == nv + 4
            &&& s2.values@[nv as int] == ValueKind::Branch(lv, if is_or { s_bb } else { r_bb }, if is_or { r_bb } else { s_bb })
            &&& s2.values@[nv + 1int] == ValueKind::Integer(if is_or { 1 } else { 0 })
            &&& (s2.values@[nv + 2int] matches ValueKind::Store(k, q) && k is Local && k->Local_0 == nv + 1 && q == p)
            &&& s2.values@[nv + 3int] == ValueKind::Jump(c.in_block)
            &&& jmp is Local && jmp->Local_0 == nv + 3
            &&& s2.insts(lb).len() > 0
            &&& s2.insts(lb).last()->Local_0 == nv
            &&& s2.insts(s_bb).len() == 2
            &&& s2.insts(s_bb)[0]->Local_0 == nv + 2
            &&& s2.insts(s_bb)[1] == jmp
            &&& frame(s2, s3, r_bb)
            &&& s2.wf_layout()
            &&& s3.wf_layout()
            &&& s2.in_layout(s_bb)
            &&& s2.in_layout(lb)
            &&& lb != r_bb
            &&& lb != s_bb
            &&& values_kept(s1, s2)
            &&& values_kept(s2, s3)
            &&& values_kept(s3, b)
            &&& denotes(s1, svm, lv, l)
            &&& denotes(s3, svm, rv, r)
            &&& forall|x: BasicBlock| x != rb ==> #[trigger] b.insts(x) == s3.insts(x)
            &&& b.values@.len() == m + 4
            &&& b.values@[m as int] == ValueKind::Integer(0)
            &&& (b.values@[m + 1int] matches ValueKind::Binary(kop, x, z) && kop == IrBinaryOp::NotEq && x == rv && z is Local && z->Local_0 == m)
            &&& (b.values@[m + 2int] matches ValueKind::Store(w, q) && w is Local && w->Local_0 == m + 1 && q == p)
            &&& b.values@[m + 3int] == ValueKind::Jump(c.in_block)
            &&& b.insts(rb).len() == s3.insts(rb).len() + 3
            &&& b.insts(rb)[b.insts(rb).len() - 3] is Local
            &&& b.insts(rb)[b.insts(rb).len() - 3]->Local_0 == m + 1
            &&& b.insts(rb)[b.insts(rb).len() - 2]->Local_0 == m + 2
            &&& b.insts(rb)[b.insts(rb).len() - 1]->Local_0 == m + 3
            &&& b.in_layout(lb)
            &&& b.in_layout(rb)
            &&& (rb == r_bb || rb.0 >= n + 3)
            &&& rb != lb
            &&& rb != s_bb
        }),
    ensures
        short_circuit_ok(a, b, svm, p, from, c, l, op, r),
{
    let n = a.bbs@.len();
    let nv = s1.values@.len() as int;
    let m = s3.values@.len() as int;
    let s_bb = BasicBlock(n as usize);
    let r_bb = BasicBlock((n + 1) as usize);
    lemma_grows_insts(s0, b, from);
    assert(s0.insts(from)[a.insts(from).len() as int] == p);
    lemma_frame_insts(s2, s3, r_bb, s_bb);
    lemma_frame_insts(s2, s3, r_bb, lb);
    lemma_values_kept_trans(s1, s2, s3);
    lemma_values_kept_trans(s1, s3, b);
    lemma_values_kept_trans(s2, s3, b);
    assert(b.values@[nv] == s2.values@[nv]);
    assert(b.values@[nv + 1int] == s2.values@[nv + 1int]);
    assert(b.values@[nv + 2int] == s2.values@[nv + 2int]);
    assert(b.values@[nv + 3int] == s2.values@[nv + 3int]);
    lemma_denotes_kept(s1, b, svm, lv, l);
    lemma_denotes_kept(s3, b, svm, rv, r);
    assert(b.insts(s_bb) == s2.insts(s_bb));
    assert(b.insts(lb) == s2.insts(lb));
    let w = b.insts(rb)[b.insts(rb).len() - 3];
    assert(is_truth_of(b, svm, w, r));
    assert(last_kind(b, rb) == Some(ValueKind::Jump(c.in_block)));
    assert(last_kind(b, lb) == Some(s2.values@[nv]));
    let k = s2.values@[nv + 2int]->Store_0;
    assert(b.insts(s_bb) =~= seq![b.insts(s_bb)[0], jmp]);
    lemma_short_circuit_intro(a, b, svm, p, from, c, l, op, r, s2.insts(s_bb)[0], k, jmp, lb, lv, rb, w);
}

/// The outcome of building an expression against its specification `sp`:
/// the builder stops the program exactly where the specification does,
/// or where a name could not be numbered once more.
pub open spec fn expr_post(r: Option<Result<(Value, Context), ProgramBuilderError>>, sp: Option<(bool, Last)>, a: FunctionData, b: FunctionData, ctx: Context, gen: Map<Seq<char>, usize>) -> bool {
    &&& (sp is None ==> r is None)
    &&& (r is None ==> sp is None || exhausted(gen))
    &&& (r matches Some(Err(_)) ==> sp matches Some((ok, _)) && !ok)
    &&& (r matches Some(Ok((v, c))) ==> sp matches Some((ok, l)) && ok && expr_result_ok(v, c, l, a, b, ctx))
}

/// Building code of effect `l1` then code of effect `l2` has the
/// effect their composition says.
pub proof fn lemma_last_ok_then(l1: Last, l2: Last, a: FunctionData, b: FunctionData, c: FunctionData, from: BasicBlock, mid: BasicBlock, to: BasicBlock, g: nat, f: nat)
    requires
        last_ok(l1, a, b, from, mid),
        last_ok(l2, b, c, mid, to),
        grows(b, c),
        b.wf(g, f),
    ensures
        last_ok(then_last(l1, l2), a, c, from, to),
{
    if l2 is Keep {
        b.lemma_insts_bounded(g, f, mid);
        if b.insts(mid).len() > 0 {
            let k = b.insts(mid).len() - 1;
            assert(b.insts(mid)[k]->Local_0 < b.values@.len());
        }
    }
}

/// Composing effects is associative.
pub proof fn lemma_then_last_assoc(a: Last, b: Last, c: Last)
    ensures
        then_last(then_last(a, b), c) == then_last(a, then_last(b, c)),
{
}

/// Bindings valid for fewer values are valid for more.
pub proof fn lemma_bindings_ok_mono(svm: SymbolValueMap<Value, Function>, nv: nat, nv2: nat, g: nat, f: nat)
    requires
        bindings_ok(svm, nv, g, f),
        nv <= nv2,
    ensures
        bindings_ok(svm, nv2, g, f),
{
    assert forall|i: int, n: Seq<char>| 0 <= i < svm.values().len() && #[trigger] svm.values()[i].contains_key(n)
        implies value_ok(svm.values()[i][n], nv2, g) by {
        assert(value_ok(svm.values()[i][n], nv, g));
    }
}

/// The effect of a statement's result composed after what came before.
pub open spec fn prepend_effect(l: Last, o: Option<(bool, Last, Names, bool)>) -> Option<(bool, Last, Names, bool)> {
    match o {
        None => None,
        Some((ok, l2, ns, w)) => Some((ok, then_last(l, l2), ns, w)),
    }
}

/// What a built statement gives: the context where code goes on, related
/// to the context it was built in.
pub open spec fn stmt_result_ok(c: Context, l: Last, w: bool, a: FunctionData, b: FunctionData, ctx: Context) -> bool {
    &&& ctx_ok(c, b)
    &&& (c.while_end is Some) == w
    &&& c.while_begin == ctx.while_begin
    &&& c.while_end == ctx.while_end
    &&& (c.in_block == ctx.in_block || c.in_block.0 >= a.bbs@.len())
    &&& last_ok(l, a, b, ctx.in_block, c.in_block)
}

/// The last instruction of a block, where it has one.
pub open spec fn last_kind(fd: FunctionData, bb: BasicBlock) -> Option<ValueKind> {
    if fd.insts(bb).len() > 0 {
        Some(fd.values@[fd.insts(bb).last()->Local_0 as int])
    } else {
        None
    }
}

/// The last instruction of a block stays the same while the block gets
/// no instruction and values are only added.
pub proof fn lemma_last_kind_kept(a: FunctionData, b: FunctionData, bb: BasicBlock, g: nat, f: nat)
    requires
        a.wf(g, f),
        values_kept(a, b),
        b.insts(bb) == a.insts(bb),
    ensures
        last_kind(b, bb) == last_kind(a, bb),
{
    a.lemma_insts_bounded(g, f, bb);
    if a.insts(bb).len() > 0 {
        let k = a.insts(bb).len() - 1;
        assert(a.insts(bb)[k]->Local_0 < a.values@.len());
    }
}

/// The current scope binds the name to a slot for an `i32`.
pub open spec fn slot_bound(fd: FunctionData, svm: SymbolValueMap<Value, Function>, name: Seq<char>) -> bool {
    &&& svm.values().len() > 0
    &&& svm.values().last().contains_key(name)
    &&& svm.values().last()[name] is Local
    &&& svm.values().last()[name]->Local_0 < fd.values@.len()
    &&& fd.values@[svm.values().last()[name]->Local_0 as int] == ValueKind::Alloc(IrType::I32)
}

/// The value `s` is an instruction of a block of the layout.
pub open spec fn laid_out(fd: FunctionData, s: Value) -> bool {
    exists|bb: BasicBlock| fd.in_layout(bb) && #[trigger] fd.insts(bb).contains(s)
}

/// `s` is a laid-out store into the slot for an `i32` that `svm` binds
/// `name` to in its current scope, of a value that computes `e` with the
/// names bound as in `svm`.
pub open spec fn stores_init(fd: FunctionData, s: Value, svm: SymbolValueMap<Value, Function>, name: Seq<char>, e: ExprView) -> bool {
    &&& laid_out(fd, s)
    &&& s is Local
    &&& s->Local_0 < fd.values@.len()
    &&& fd.values@[s->Local_0 as int] matches ValueKind::Store(x, p)
        && svm.values().len() > 0
        && svm.values().last().contains_key(name)
        && svm.values().last()[name] == p
        && p is Local
        && p->Local_0 < fd.values@.len()
        && fd.values@[p->Local_0 as int] == ValueKind::Alloc(IrType::I32)
        && denotes(fd, svm, x, e)
}

/// Some entry of `v` after the `k`-th and before the `upto`-th declares
/// the same name.
pub open spec fn redeclared(v: Seq<(SpecType, IdentifierView, Option<ExprView>)>, k: int, upto: int) -> bool {
    exists|m: int| k < m < upto && #[trigger] v[m].1.name == v[k].1.name
}

/// The initialiser of the `k`-th entry of a variable declaration is
/// stored into the slot bound to the entry's name; where no entry after
/// it (up to the `upto`-th) declares the same name, that slot is the one
/// the name is bound to in the current scope of `svm1`.
pub open spec fn init_stored(fd: FunctionData, svm1: SymbolValueMap<Value, Function>, v: Seq<(SpecType, IdentifierView, Option<ExprView>)>, k: int, upto: int) -> bool {
    exists|s: Value, svm: SymbolValueMap<Value, Function>|
        #[trigger] stores_init(fd, s, svm, v[k].1.name, v[k].2->0)
        && (!redeclared(v, k, upto) ==> svm.values().last()[v[k].1.name] == svm1.values().last()[v[k].1.name])
}

/// What a variable declaration leaves: each name it declares is bound,
/// in the current scope of `svm1`, to a slot for an `i32`, and each
/// initialiser is stored (`init_stored`).
#[verifier::opaque]
pub open spec fn var_decl_effect(fd: FunctionData, svm1: SymbolValueMap<Value, Function>, v: Seq<(SpecType, IdentifierView, Option<ExprView>)>) -> bool {
    &&& forall|k: int| 0 <= k < v.len() ==> #[trigger] slot_bound(fd, svm1, v[k].1.name)
    &&& forall|k: int| 0 <= k < v.len() && v[k].2 is Some ==> #[trigger] init_stored(fd, svm1, v, k, v.len() as int)
}

/// What is laid out stays laid out as a function grows.
pub proof fn lemma_laid_out_grows(a: FunctionData, b: FunctionData, s: Value)
    requires
        grows(a, b),
        a.wf_layout(),
        b.wf_layout(),
        laid_out(a, s),
    ensures
        laid_out(b, s),
{
    let bb = choose|bb: BasicBlock| a.in_layout(bb) && #[trigger] a.insts(bb).contains(s);
    lemma_grows_insts(a, b, bb);
    lemma_grows_in_layout(a, b, bb);
    let j = choose|j: int| 0 <= j < a.insts(bb).len() && a.insts(bb)[j] == s;
    assert(b.insts(bb)[j] == s);
    assert(b.insts(bb).contains(s));
}

/// What is laid out stays laid out when an instruction is appended to a
/// block.
pub proof fn lemma_laid_out_emit(a: FunctionData, b: FunctionData, target: BasicBlock, r: Value, s: Value)
    requires
        laid_out(a, s),
        b.insts(target) == a.insts(target).push(r),
        forall|x: BasicBlock| x != target ==> #[trigger] b.insts(x) == a.insts(x),
        forall|x: BasicBlock| a.in_layout(x) ==> #[trigger] b.in_layout(x),
    ensures
        laid_out(b, s),
{
    let bb = choose|bb: BasicBlock| a.in_layout(bb) && #[trigger] a.insts(bb).contains(s);
    assert(b.in_layout(bb));
    let j = choose|j: int| 0 <= j < a.insts(bb).len() && a.insts(bb)[j] == s;
    assert(b.insts(bb)[j] == s);
    assert(b.insts(bb).contains(s));
}

/// The stored initialisers of the first `n` entries stay stored as the
/// function gets more values and instructions, where each name that is
/// not declared again keeps its slot.
pub proof fn lemma_inits_kept(
    a: FunctionData,
    b: FunctionData,
    svm_a: SymbolValueMap<Value, Function>,
    svm_b: SymbolValueMap<Value, Function>,
    v: Seq<(SpecType, IdentifierView, Option<ExprView>)>,
    n: int,
    ua: int,
    ub: int,
)
    requires
        values_kept(a, b),
        forall|s: Value| #[trigger] laid_out(a, s) ==> laid_out(b, s),
        forall|k: int| 0 <= k < n && v[k].2 is Some ==> #[trigger] init_stored(a, svm_a, v, k, ua),
        forall|k: int| 0 <= k < n && !#[trigger] redeclared(v, k, ub) ==> !redeclared(v, k, ua)
            && svm_b.values().last()[v[k].1.name] == svm_a.values().last()[v[k].1.name],
    ensures
        forall|k: int| 0 <= k < n && v[k].2 is Some ==> #[trigger] init_stored(b, svm_b, v, k, ub),
{
    assert forall|k: int| 0 <= k < n && v[k].2 is Some implies #[trigger] init_stored(b, svm_b, v, k, ub) by {
        assert(init_stored(a, svm_a, v, k, ua));
        let (s, svm) = choose|s: Value, svm: SymbolValueMap<Value, Function>|
            #[trigger] stores_init(a, s, svm, v[k].1.name, v[k].2->0)
            && (!redeclared(v, k, ua) ==> svm.values().last()[v[k].1.name] == svm_a.values().last()[v[k].1.name]);
        if let ValueKind::Store(x, p) = a.values@[s->Local_0 as int] {
            assert(b.values@[s->Local_0 as int] == a.values@[s->Local_0 as int]);
            assert(b.values@[p->Local_0 as int] == a.values@[p->Local_0 as int]);
            lemma_denotes_kept(a, b, svm, x, v[k].2->0);
            assert(stores_init(b, s, svm, v[k].1.name, v[k].2->0));
        }
    }
}

/// What a statement built from the context `ctx` into `a` leaves in `b`,
/// with names bound as in `svm0` before it and in `svm1` after it:
/// - a `return` ends the block where code goes on with a return of the
///   value of its expression; an assignment ends it with a store of the
///   value of its expression into the slot of its variable;
/// - a variable declaration binds each name it declares, in the current
///   scope, to a slot for an `i32`, and each initialiser is stored, by a
///   laid-out store of a value that computes it, into the slot bound to its
///   name, which the name keeps where no later entry declares it again
///   (`init_stored`);
/// - `break` and `continue` end the block they started in with a jump to
///   the end or to the guard of the innermost `while`;
/// - an `if` ends the block it started in with a jump to its guard block,
///   the first block it makes; some block ends with a branch on the value
///   of its condition to its `then` block, the third block it makes, and
///   to its merge block, the second, where code goes on, or, with an
///   `else`, to a block made after the `then` part; the `then` part is
///   built from the `then` block in the enclosing loop's context, with its
///   own effect, and where it leaves its last block open that block ends
///   with a jump to the merge block (`part_ok`);
/// - a `while` ends the block it started in with a jump to its guard
///   block, the first block it makes; some block ends with a branch on the
///   value of its condition to its body block and to its end block, the
///   second and the third, where code goes on; the body is built from the
///   body block with `continue` jumping to the guard and `break` to the end
///   block, with its own effect, and where it leaves its last block open
///   that block ends with a jump back to the guard (`part_ok`).
pub open spec fn stmt_effect(a: FunctionData, b: FunctionData, svm0: SymbolValueMap<Value, Function>, svm1: SymbolValueMap<Value, Function>, ctx: Context, c: Context, s: StmtView) -> bool
    decreases s, 0int,
{
    let n = a.bbs@.len();
    match s {
        StmtView::VarDecl(v) => var_decl_effect(b, svm1, v),
        StmtView::Return(e) => last_kind(b, c.in_block) matches Some(ValueKind::Return(Some(v))) && denotes(b, svm0, v, e),
        StmtView::Assign(lval, e) => last_kind(b, c.in_block) matches Some(ValueKind::Store(v, p))
            && scoped_lookup(svm0.values(), lval.name) == Some(p) && denotes(b, svm0, v, e),
        StmtView::Break => ctx.while_end matches Some(t) && last_kind(b, ctx.in_block) == Some(ValueKind::Jump(t)),
        StmtView::Continue => ctx.while_begin matches Some(t) && last_kind(b, ctx.in_block) == Some(ValueKind::Jump(t)),
        StmtView::If(cond, t, e) => {
            &&& last_kind(b, ctx.in_block) == Some(ValueKind::Jump(BasicBlock(n as usize)))
            &&& c.in_block == BasicBlock((n + 1) as usize)
            &&& exists|bb: BasicBlock| b.in_layout(bb) && (#[trigger] last_kind(b, bb) matches Some(ValueKind::Branch(v, tb, eb))
                && tb == BasicBlock((n + 2) as usize) && denotes(b, svm1, v, cond) && (e is None ==> eb == c.in_block)
                && (e is Some ==> eb.0 >= n + 3))
            &&& part_ok(b, Context { in_block: BasicBlock((n + 2) as usize), while_begin: ctx.while_begin, while_end: ctx.while_end }, *t, c.in_block, (n + 2) as nat)
        },
        StmtView::While(cond, body) => {
            &&& last_kind(b, ctx.in_block) == Some(ValueKind::Jump(BasicBlock(n as usize)))
            &&& c.in_block == BasicBlock((n + 2) as usize)
            &&& exists|bb: BasicBlock| b.in_layout(bb) && (#[trigger] last_kind(b, bb) matches Some(ValueKind::Branch(v, tb, eb))
                && tb == BasicBlock((n + 1) as usize) && eb == BasicBlock((n + 2) as usize) && denotes(b, svm0, v, cond))
            &&& part_ok(b, Context { in_block: BasicBlock((n + 1) as usize), while_begin: Some(BasicBlock(n as usize)), while_end: Some(BasicBlock((n + 2) as usize)) },
                *body, BasicBlock(n as usize), (n + 1) as nat)
        },
        _ => true,
    }
}

/// After a part of a statement was built into `mid`, ending in the context
/// `pc`, the builder closes the block where the part ends: where `mid` left
/// it open, `b` ends it with a jump to `target`; else `b` leaves its last
/// instruction as it was. The blocks that `mid` laid out stay laid out, and
/// those from `lo` on keep their instructions in `b`, but for that one.
#[verifier::opaque]
pub open spec fn closed_after(mid: FunctionData, b: FunctionData, pc: Context, target: BasicBlock, lo: nat) -> bool {
    &&& values_kept(mid, b)
    &&& b.in_layout(pc.in_block)
    &&& (block_open(mid, pc.in_block) ==> last_kind(b, pc.in_block) == Some(ValueKind::Jump(target)))
    &&& (!block_open(mid, pc.in_block) ==> last_kind(b, pc.in_block) == last_kind(mid, pc.in_block))
    &&& forall|y: BasicBlock| mid.in_layout(y) ==> #[trigger] b.in_layout(y)
    &&& forall|y: BasicBlock| mid.in_layout(y) && y.0 >= lo && y != pc.in_block
        ==> #[trigger] b.insts(y) == mid.insts(y)
}

/// A part of a statement (the body of a `while`, a branch of an `if`),
/// built from the context `pctx` into some state `mid` with the effect its
/// statement has, after which the block where it ends was closed with a
/// jump to `target` where it was open, in `b`; the blocks from `lo` on keep
/// what the part left in them.
#[verifier::opaque]
pub open spec fn part_ok(b: FunctionData, pctx: Context, part: StmtView, target: BasicBlock, lo: nat) -> bool
    decreases part, 1int,
{
    exists|a1: FunctionData, mid: FunctionData, v0: SymbolValueMap<Value, Function>, v1: SymbolValueMap<Value, Function>, pc: Context|
        #![trigger part_states(a1, mid, v0, v1, pc)]
        stmt_effect(a1, mid, v0, v1, pctx, pc, part) && closed_after(mid, b, pc, target, lo)
}

/// The states through which a part of a statement was built (names the
/// witnesses of `part_ok`).
pub open spec fn part_states(a1: FunctionData, mid: FunctionData, v0: SymbolValueMap<Value, Function>, v1: SymbolValueMap<Value, Function>, pc: Context) -> bool {
    true
}

/// A part built with the effect of its statement, and then closed, makes
/// `part_ok`.
proof fn lemma_part_ok(b: FunctionData, pctx: Context, part: StmtView, target: BasicBlock, lo: nat, a1: FunctionData, mid: FunctionData,
    v0: SymbolValueMap<Value, Function>, v1: SymbolValueMap<Value, Function>, pc: Context)
    requires
        stmt_effect(a1, mid, v0, v1, pctx, pc, part),
        closed_after(mid, b, pc, target, lo),
    ensures
        part_ok(b, pctx, part, target, lo),
{
    reveal_with_fuel(part_ok, 2);
    assert(part_states(a1, mid, v0, v1, pc));
}

/// Closing the block where a part ends, as `jump_if_open` does, makes
/// `closed_after`.
proof fn lemma_closed_after_init(mid: FunctionData, b: FunctionData, pc: Context, target: BasicBlock, lo: nat)
    requires
        values_kept(mid, b),
        mid.in_layout(pc.in_block),
        block_open(mid, pc.in_block) ==> last_kind(b, pc.in_block) == Some(ValueKind::Jump(target)),
        !block_open(mid, pc.in_block) ==> b == mid,
        forall|x: BasicBlock| x != pc.in_block ==> #[trigger] b.insts(x) == mid.insts(x),
        forall|x: BasicBlock| mid.in_layout(x) ==> #[trigger] b.in_layout(x),
    ensures
        closed_after(mid, b, pc, target, lo),
{
    reveal(closed_after);
}

/// A step that changes no block the part left, but `z`, keeps
/// `closed_after`.
proof fn lemma_closed_after_step(mid: FunctionData, b: FunctionData, b2: FunctionData, pc: Context, target: BasicBlock, lo: nat, z: BasicBlock, g: nat, f: nat)
    requires
        closed_after(mid, b, pc, target, lo),
        b.wf(g, f),
        values_kept(b, b2),
        forall|x: BasicBlock| b.in_layout(x) ==> #[trigger] b2.in_layout(x),
        forall|x: BasicBlock| b.in_layout(x) && x != z ==> #[trigger] b2.insts(x) == b.insts(x),
        z != pc.in_block,
        z.0 < lo || z.0 >= mid.bbs@.len(),
        forall|i: int| 0 <= i < mid.layout@.len() ==> (#[trigger] mid.layout@[i]).0.0 < mid.bbs@.len(),
    ensures
        closed_after(mid, b2, pc, target, lo),
{
    reveal(closed_after);
    lemma_last_kind_kept(b, b2, pc.in_block, g, f);
    lemma_values_kept_trans(mid, b, b2);
    assert forall|y: BasicBlock| mid.in_layout(y) && y.0 >= lo && y != pc.in_block
        implies #[trigger] b2.insts(y) == mid.insts(y) by {
        let q = choose|q: int| 0 <= q < mid.layout@.len() && mid.layout@[q].0 == y;
        assert(mid.layout@[q].0.0 < mid.bbs@.len());
        assert(b.insts(y) == mid.insts(y));
        assert(y != z);
        assert(b.in_layout(y));
        assert(b2.insts(y) == b.insts(y));
    }
    assert forall|y: BasicBlock| mid.in_layout(y) implies #[trigger] b2.in_layout(y) by {
        assert(b.in_layout(y));
    }
}

/// What a frame keeps, for every block laid out before.
proof fn lemma_frame_insts_all(a: FunctionData, b: FunctionData, bb: BasicBlock)
    requires
        frame(a, b, bb),
        a.wf_layout(),
        b.wf_layout(),
    ensures
        values_kept(a, b),
        forall|x: BasicBlock| a.in_layout(x) ==> #[trigger] b.in_layout(x),
        forall|x: BasicBlock| a.in_layout(x) && x != bb ==> #[trigger] b.insts(x) == a.insts(x),
{
    assert forall|x: BasicBlock| a.in_layout(x) implies #[trigger] b.in_layout(x) by {
        lemma_grows_in_layout(a, b, x);
    }
    assert forall|x: BasicBlock| a.in_layout(x) && x != bb implies #[trigger] b.insts(x) == a.insts(x) by {
        lemma_frame_insts(a, b, bb, x);
    }
}

/// The outcome of building a statement against its specification `sp`.
pub open spec fn stmt_post(r: Option<Result<Context, ProgramBuilderError>>, sp: Option<(bool, Last, Names, bool)>, a: FunctionData, b: FunctionData, ctx: Context, gen: Map<Seq<char>, usize>, ns_after: Names) -> bool {
    &&& (sp is None ==> r is None)
    &&& (r is None ==> sp is None || exhausted(gen))
    &&& (r matches Some(Err(_)) ==> sp matches Some((ok, _, _, _)) && !ok)
    &&& (r matches Some(Ok(c)) ==> sp matches Some((ok, l, ns2, w2)) && ok && ns_after == ns2 && stmt_result_ok(c, l, w2, a, b, ctx))
}

/// Ends the block `lb` of a left operand with a branch on its value `lv`,
/// to `scb` where it decides the result (true for `||`, false for `&&`)
/// and to `erb` otherwise, and fills `scb` with a store of the
/// short-circuit value into `p` and a jump to `scm`, which it returns.
fn emit_short_circuit_branch(func_data: &mut FunctionData, is_or: bool, lv: Value, lb: BasicBlock, scb: BasicBlock, erb: BasicBlock, scm: BasicBlock, p: Value,
    Ghost(g): Ghost<nat>, Ghost(f): Ghost<nat>, Ghost(base): Ghost<FunctionData>, Ghost(bb): Ghost<BasicBlock>) -> (jump: Value)
    requires
        old(func_data).wf(g, f),
        base.wf(g, f),
        frame(base, *old(func_data), bb),
        old(func_data).in_layout(lb),
        lb == bb || lb.0 >= base.bbs@.len(),
        old(func_data).in_layout(scb),
        scb.0 >= base.bbs@.len(),
        scb != lb,
        old(func_data).insts(scb).len() == 0,
        value_ok(lv, old(func_data).values@.len(), g),
        value_ok(p, old(func_data).values@.len(), g),
        scb.0 < old(func_data).bbs@.len(),
        erb.0 < old(func_data).bbs@.len(),
        scm.0 < old(func_data).bbs@.len(),
    ensures
        final(func_data).wf(g, f),
        frame(base, *final(func_data), bb),
        final(func_data).bbs@ == old(func_data).bbs@,
        ({
            let n = old(func_data).values@.len();
            &&& final(func_data).values@.len() == n + 4
            &&& forall|k: int| 0 <= k < n ==> #[trigger] final(func_data).values@[k] == old(func_data).values@[k]
            &&& final(func_data).values@[n as int] == ValueKind::Branch(lv, if is_or { scb } else { erb }, if is_or { erb } else { scb })
            &&& final(func_data).values@[n + 1int] == ValueKind::Integer(if is_or { 1 } else { 0 })
            &&& (final(func_data).values@[n + 2int] matches ValueKind::Store(k, q) && k is Local && k->Local_0 == n + 1 && q == p)
            &&& final(func_data).values@[n + 3int] == ValueKind::Jump(scm)
            &&& jump is Local && jump->Local_0 == n + 3
            &&& final(func_data).insts(lb).len() == old(func_data).insts(lb).len() + 1
            &&& final(func_data).insts(lb).drop_last() == old(func_data).insts(lb)
            &&& final(func_data).insts(lb).last()->Local_0 == n
            &&& final(func_data).insts(scb).len() == 2
            &&& final(func_data).insts(scb)[0]->Local_0 == n + 2
            &&& final(func_data).insts(scb)[1] == jump
        }),
        forall|x: BasicBlock| x != lb && x != scb ==> #[trigger] final(func_data).insts(x) == old(func_data).insts(x),
        forall|x: BasicBlock| old(func_data).in_layout(x) ==> #[trigger] final(func_data).in_layout(x),
        final(func_data).layout@.len() == old(func_data).layout@.len(),
        forall|i: int| 0 <= i < old(func_data).layout@.len() ==> (#[trigger] final(func_data).layout@[i]).0 == old(func_data).layout@[i].0,
        forall|i: int| 0 <= i < old(func_data).layout@.len() && old(func_data).layout@[i].0 != lb && old(func_data).layout@[i].0 != scb
            ==> (#[trigger] final(func_data).layout@[i]).1@ == old(func_data).layout@[i].1@,
{
    let ghost o = *func_data;
    let br = if is_or { ValueKind::Branch(lv, scb, erb) } else { ValueKind::Branch(lv, erb, scb) };
    let _b = func_data.emit(br, lb, Ghost(g), Ghost(f), Ghost(base), Ghost(bb));
    let ghost o1 = *func_data;
    assert(o1.in_layout(scb));
    let k = if is_or { func_data.make_value(ValueKind::Integer(1), Ghost(g), Ghost(f), Ghost(base), Ghost(bb)) } else { func_data.make_value(ValueKind::Integer(0), Ghost(g), Ghost(f), Ghost(base), Ghost(bb)) };
    let ghost o2 = *func_data;
    assert(o2.layout@ == o1.layout@);
    assert(o2.in_layout(scb));
    let _st = func_data.emit(ValueKind::Store(k, p), scb, Ghost(g), Ghost(f), Ghost(base), Ghost(bb));
    let ghost o3 = *func_data;
    let jump = func_data.emit(ValueKind::Jump(scm), scb, Ghost(g), Ghost(f), Ghost(base), Ghost(bb));
    proof {
        assert forall|x: BasicBlock| x != lb && x != scb implies #[trigger] func_data.insts(x) == o.insts(x) by {
            assert(o1.insts(x) == o.insts(x));
            assert(o2.insts(x) == o1.insts(x));
            assert(o3.insts(x) == o2.insts(x));
        }
        assert forall|x: BasicBlock| o.in_layout(x) implies #[trigger] func_data.in_layout(x) by {
            assert(o1.in_layout(x));
            assert(o2.in_layout(x));
            assert(o3.in_layout(x));
        }
        assert(o2.insts(scb) == o1.insts(scb));
        assert(o2.insts(lb) == o1.insts(lb));
        assert(o1.insts(scb) == o.insts(scb));
        assert(func_data.insts(scb) =~= seq![_st, jump]);
        assert(func_data.insts(lb).drop_last() =~= o.insts(lb));
    }
    jump
}

/// Ends the block `rb` with a comparison of `rv` with 0 (true where `rv`
/// is not 0), which it returns, a store of it into `p`, and a jump to
/// `target`.
fn store_truth_and_jump(func_data: &mut FunctionData, rb: BasicBlock, rv: Value, p: Value, target: BasicBlock,
    Ghost(g): Ghost<nat>, Ghost(f): Ghost<nat>, Ghost(base): Ghost<FunctionData>, Ghost(bb): Ghost<BasicBlock>) -> (w: Value)
    requires
        old(func_data).wf(g, f),
        base.wf(g, f),
        frame(base, *old(func_data), bb),
        old(func_data).in_layout(rb),
        rb == bb || rb.0 >= base.bbs@.len(),
        value_ok(rv, old(func_data).values@.len(), g),
        value_ok(p, old(func_data).values@.len(), g),
        target.0 < old(func_data).bbs@.len(),
    ensures
        final(func_data).wf(g, f),
        frame(base, *final(func_data), bb),
        ({
            let m = old(func_data).values@.len();
            let o = old(func_data).insts(rb);
            let fi = final(func_data).insts(rb);
            &&& final(func_data).values@.len() == m + 4
            &&& forall|k: int| 0 <= k < m ==> #[trigger] final(func_data).values@[k] == old(func_data).values@[k]
            &&& final(func_data).values@[m as int] == ValueKind::Integer(0)
            &&& (final(func_data).values@[m + 1int] matches ValueKind::Binary(kop, x, z) && kop == IrBinaryOp::NotEq && x == rv && z is Local && z->Local_0 == m)
            &&& (final(func_data).values@[m + 2int] matches ValueKind::Store(wv, q) && wv is Local && wv->Local_0 == m + 1 && q == p)
            &&& final(func_data).values@[m + 3int] == ValueKind::Jump(target)
            &&& w is Local && w->Local_0 == m + 1
            &&& fi.len() == o.len() + 3
            &&& fi.subrange(0, o.len() as int) == o
            &&& fi[fi.len() - 3] == w
            &&& fi[fi.len() - 3]->Local_0 == m + 1
            &&& fi[fi.len() - 2]->Local_0 == m + 2
            &&& fi[fi.len() - 1]->Local_0 == m + 3
        }),
        final(func_data).bbs@ == old(func_data).bbs@,
        final(func_data).layout@.len() == old(func_data).layout@.len(),
        forall|i: int| 0 <= i < old(func_data).layout@.len() ==> (#[trigger] final(func_data).layout@[i]).0 == old(func_data).layout@[i].0,
        forall|i: int| 0 <= i < old(func_data).layout@.len() && old(func_data).layout@[i].0 != rb ==> (#[trigger] final(func_data).layout@[i]).1@ == old(func_data).layout@[i].1@,
        forall|x: BasicBlock| x != rb ==> #[trigger] final(func_data).insts(x) == old(func_data).insts(x),
        forall|x: BasicBlock| old(func_data).in_layout(x) ==> #[trigger] final(func_data).in_layout(x),
{
    let ghost o = *func_data;
    let zero = func_data.make_value(ValueKind::Integer(0), Ghost(g), Ghost(f), Ghost(base), Ghost(bb));
    let ghost o0 = *func_data;
    assert(o0.layout@ == o.layout@);
    assert(o0.in_layout(rb));
    let w = func_data.emit(ValueKind::Binary(IrBinaryOp::NotEq, rv, zero), rb, Ghost(g), Ghost(f), Ghost(base), Ghost(bb));
    let ghost o1 = *func_data;
    let st = func_data.emit(ValueKind::Store(w, p), rb, Ghost(g), Ghost(f), Ghost(base), Ghost(bb));
    let ghost o2 = *func_data;
    let _j = func_data.emit(ValueKind::Jump(target), rb, Ghost(g), Ghost(f), Ghost(base), Ghost(bb));
    proof {
        assert forall|x: BasicBlock| o.in_layout(x) implies #[trigger] func_data.in_layout(x) by {
            assert(o0.in_layout(x));
            assert(o1.in_layout(x));
            assert(o2.in_layout(x));
        }
        assert forall|x: BasicBlock| x != rb implies #[trigger] func_data.insts(x) == o.insts(x) by {
            assert(o0.insts(x) == o.insts(x));
            assert(o1.insts(x) == o0.insts(x));
            assert(o2.insts(x) == o1.insts(x));
        }
        assert(o0.insts(rb) == o.insts(rb));
        assert(func_data.insts(rb).subrange(0, o.insts(rb).len() as int) =~= o.insts(rb));
    }
    w
}

/// Whether the block is open: it has no instruction, or its last one does
/// not end a block.
pub open spec fn block_open(fd: FunctionData, bb: BasicBlock) -> bool {
    let o = fd.insts(bb);
    o.len() == 0 || !ends_block(fd.values@[o.last()->Local_0 as int])
}

/// Appends a new jump to `target` to the block unless its last instruction
/// already ends it (a jump, a branch or a return).
fn jump_if_open(func_data: &mut FunctionData, bb: BasicBlock, target: BasicBlock, Ghost(g): Ghost<nat>, Ghost(f): Ghost<nat>, Ghost(base): Ghost<FunctionData>, Ghost(fb): Ghost<BasicBlock>)
    requires
        old(func_data).wf(g, f),
        base.wf(g, f),
        frame(base, *old(func_data), fb),
        old(func_data).in_layout(bb),
        bb == fb || bb.0 >= base.bbs@.len(),
        target.0 < old(func_data).bbs@.len(),
    ensures
        final(func_data).wf(g, f),
        frame(base, *final(func_data), fb),
        grows(*old(func_data), *final(func_data)),
        values_kept(*old(func_data), *final(func_data)),
        final(func_data).bbs@ == old(func_data).bbs@,
        forall|x: BasicBlock| x != bb ==> #[trigger] final(func_data).insts(x) == old(func_data).insts(x),
        forall|x: BasicBlock| old(func_data).in_layout(x) ==> #[trigger] final(func_data).in_layout(x),
        block_open(*old(func_data), bb) ==> last_kind(*final(func_data), bb) == Some(ValueKind::Jump(target)),
        !block_open(*old(func_data), bb) ==> *final(func_data) == *old(func_data),
{
    let ghost o = *func_data;
    proof {
        o.lemma_insts_bounded(g, f, bb);
    }
    let open = match func_data.last_instr(bb) {
        None => true,
        Some(k) => !is_jump(k),
    };
    if open {
        proof {
            lemma_frame_refl(o, bb);
        }
        let _j = func_data.emit(ValueKind::Jump(target), bb, Ghost(g), Ghost(f), Ghost(o), Ghost(bb));
        proof {
            lemma_frame_new_block(base, o, *func_data, fb, bb);
            assert(values_kept(o, *func_data));
        }
    } else {
        proof {
            lemma_frame_refl(o, bb);
        }
    }
}

/// Whether the instruction is a return.
fn is_ret(k: &ValueKind) -> (r: bool)
    ensures
        r == is_return(*k),
{
    match k {
        ValueKind::Return(_) => true,
        _ => false,
    }
}

/// Where code is being built: the current block, and the blocks of the
/// innermost `while` (its guard and the block after it), if any.
#[derive(Debug, Clone, Copy)]
pub struct Context {
    pub in_block: BasicBlock,
    pub while_begin: Option<BasicBlock>,
    pub while_end: Option<BasicBlock>,
}

/// A context that is valid in a function: its blocks exist, the current
/// one is laid out, and the `while` blocks are both there or both absent.
pub open spec fn ctx_ok(c: Context, fd: FunctionData) -> bool {
    &&& fd.in_layout(c.in_block)
    &&& c.while_begin is Some == c.while_end is Some
    &&& c.while_begin matches Some(b) ==> b.0 < fd.bbs@.len()
    &&& c.while_end matches Some(b) ==> b.0 < fd.bbs@.len()
}

/// Errors of the IR builder.
#[derive(Debug)]
pub enum ProgramBuilderError {
    SymbolTableError(SymbolTableError),
    SymbolInfoError(SymbolInfoError),
    SymbolValueMapError(SymbolValueMapError),
}

/// The Koopa IR builder.
pub struct ProgramBuilder {
    ast: CompileUnit,
    symbol_value_map: SymbolValueMap<Value, Function>,
    name_generator: NameGenerator,
}

impl ProgramBuilder {
    /// Makes a new block named by the generator from `name`; `None` where
    /// the name cannot be numbered once more.
    fn new_named_block(&mut self, name: &str, func_data: &mut FunctionData, Ghost(g): Ghost<nat>, Ghost(f): Ghost<nat>, Ghost(base): Ghost<FunctionData>, Ghost(bb): Ghost<BasicBlock>) -> (r: Option<BasicBlock>)
        requires
            names_from(old(func_data).bbs@, old(self).name_generator.issued()),
            old(func_data).wf(g, f),
            frame(base, *old(func_data), bb),
        ensures
            names_from(final(func_data).bbs@, final(self).name_generator.issued()),
            final(self).name_generator.made() <= old(self).name_generator.made() + 1,
            final(self).symbol_value_map == old(self).symbol_value_map,
            final(self).ast == old(self).ast,
            r is None ==> exhausted(final(self).name_generator@) && *final(func_data) == *old(func_data),
            r matches Some(nb) ==> {
                &&& final(func_data).wf(g, f)
                &&& frame(base, *final(func_data), bb)
                &&& nb.0 == old(func_data).bbs@.len()
                &&& final(func_data).bbs@.len() == old(func_data).bbs@.len() + 1
                &&& final(func_data).values@ == old(func_data).values@
                &&& final(func_data).layout@.len() == old(func_data).layout@.len() + 1
                &&& final(func_data).layout@.drop_last() == old(func_data).layout@
                &&& final(func_data).layout@.last().0 == nb
                &&& final(func_data).in_layout(nb)
                &&& final(func_data).insts(nb).len() == 0
                &&& forall|x: BasicBlock| x != nb ==> #[trigger] final(func_data).insts(x) == old(func_data).insts(x)
                &&& forall|x: BasicBlock| old(func_data).in_layout(x) ==> #[trigger] final(func_data).in_layout(x)
            },
    {
        if !self.name_generator.can_generate(name) {
            return None;
        }
        let ghost issued0 = self.name_generator.issued();
        let n = self.name_generator.generate(name);
        let ghost n0 = n;
        let b = func_data.make_block(n, Ghost(g), Ghost(f), Ghost(base), Ghost(bb));
        proof {
            lemma_names_from_push(old(func_data).bbs@, issued0, n0);
        }
        Some(b)
    }

    /// Builds an expression into the current block of the context: its
    /// value, and the context where code goes on.
    fn build_expr(&mut self, expr: &Expression, func_data: &mut FunctionData, ctx: &Context, Ghost(g): Ghost<nat>, Ghost(f): Ghost<nat>) -> (r: Option<Result<(Value, Context), ProgramBuilderError>>)
        requires
            names_from(old(func_data).bbs@, old(self).name_generator.issued()),
            old(self).symbol_value_map.wf(),
            old(func_data).wf(g, f),
            bindings_ok(old(self).symbol_value_map, old(func_data).values@.len(), g, f),
            ctx_ok(*ctx, *old(func_data)),
        ensures
            r matches Some(Ok((v, c))) ==> op_placed(*final(func_data), v, c, expr@),
            names_from(final(func_data).bbs@, final(self).name_generator.issued()),
            r matches Some(Ok((v, _))) ==> denotes(*final(func_data), old(self).symbol_value_map, v, expr@),
            final(self).name_generator.made() <= old(self).name_generator.made() + blocks_expr(expr@),
            final(self).symbol_value_map == old(self).symbol_value_map,
            final(self).ast == old(self).ast,
            final(func_data).wf(g, f),
            frame(*old(func_data), *final(func_data), ctx.in_block),
            expr_post(r, spec_build_expr(names_of(old(self).symbol_value_map), expr@), *old(func_data), *final(func_data), *ctx, final(self).name_generator@),
        decreases expr, 2int,
    {
        match expr {
            Expression::IntLit(i) => {
                let ghost start = *func_data;
                proof {
                    lemma_frame_refl(start, ctx.in_block);
                }
                let v = func_data.make_value(ValueKind::Integer(*i), Ghost(g), Ghost(f), Ghost(start), Ghost(ctx.in_block));
                Some(Ok((v, *ctx)))
            },
            Expression::Ident(_) => self.build_ident(expr, func_data, ctx, Ghost(g), Ghost(f)),
            Expression::Unary(_, _) => self.build_unary(expr, func_data, ctx, Ghost(g), Ghost(f)),
            Expression::Binary(_, _, _) => self.build_binary(expr, func_data, ctx, Ghost(g), Ghost(f)),
            Expression::Call(_, _) => self.build_call(expr, func_data, ctx, Ghost(g), Ghost(f)),
        }
    }

    /// Builds a use of an identifier.
    fn build_ident(&mut self, expr: &Expression, func_data: &mut FunctionData, ctx: &Context, Ghost(g): Ghost<nat>, Ghost(f): Ghost<nat>) -> (r: Option<Result<(Value, Context), ProgramBuilderError>>)
        requires
            names_from(old(func_data).bbs@, old(self).name_generator.issued()),
            expr is Ident,
            old(self).symbol_value_map.wf(),
            old(func_data).wf(g, f),
            bindings_ok(old(self).symbol_value_map, old(func_data).values@.len(), g, f),
            ctx_ok(*ctx, *old(func_data)),
        ensures
            names_from(final(func_data).bbs@, final(self).name_generator.issued()),
            r matches Some(Ok((v, _))) ==> denotes(*final(func_data), old(self).symbol_value_map, v, expr@),
            final(self).name_generator.made() <= old(self).name_generator.made() + blocks_expr(expr@),
            final(self).symbol_value_map == old(self).symbol_value_map,
            final(self).ast == old(self).ast,
            final(func_data).wf(g, f),
            frame(*old(func_data), *final(func_data), ctx.in_block),
            expr_post(r, spec_build_expr(names_of(old(self).symbol_value_map), expr@), *old(func_data), *final(func_data), *ctx, final(self).name_generator@),
        decreases expr, 1int,
    {
        let ghost start = *func_data;
        let ghost ns = names_of(self.symbol_value_map);
        proof {
            lemma_frame_refl(start, ctx.in_block);
        }
        match expr {
            Expression::Ident(id) => match &id.resolve_status {
                ResolveStatus::Unresolved => None,
                ResolveStatus::Resolved(info) => {
                    if info.is_const_val() {
                        match info.const_val_of() {
                            Ok(c) => {
                                let v = func_data.make_value(ValueKind::Integer(c), Ghost(g), Ghost(f), Ghost(start), Ghost(ctx.in_block));
                                Some(Ok((v, *ctx)))
                            },
                            Err(e) => Some(Err(ProgramBuilderError::SymbolInfoError(e))),
                        }
                    } else {
                        proof {
                            lemma_scoped_lookup(self.symbol_value_map.values(), id.name@);
                        }
                        match self.symbol_value_map.find_value(&id.name) {
                            None => {
                                assert(!bound(ns.vals, id.name@)) by {
                                    if bound(ns.vals, id.name@) {
                                        let i = choose|i: int| 0 <= i < ns.vals.len() && ns.vals[i].contains(id.name@);
                                        assert(self.symbol_value_map.values()[i].contains_key(id.name@));
                                    }
                                }
                                None
                            },
                            Some(value) => {
                                proof {
                                    let i = choose|i: int| 0 <= i < self.symbol_value_map.values().len() && self.symbol_value_map.values()[i].contains_key(id.name@) && self.symbol_value_map.values()[i][id.name@] == value;
                                    assert(ns.vals[i].contains(id.name@));
                                    start.lemma_insts_bounded(g, f, ctx.in_block);
                                }
                                let load = func_data.emit(ValueKind::Load(value), ctx.in_block, Ghost(g), Ghost(f), Ghost(start), Ghost(ctx.in_block));
                                Some(Ok((load, *ctx)))
                            },
                        }
                    }
                },
            },
            _ => {
                proof {
                    assert(false);
                }
                None
            },
        }
    }

    /// Builds a unary operation.
    fn build_unary(&mut self, expr: &Expression, func_data: &mut FunctionData, ctx: &Context, Ghost(g): Ghost<nat>, Ghost(f): Ghost<nat>) -> (r: Option<Result<(Value, Context), ProgramBuilderError>>)
        requires
            names_from(old(func_data).bbs@, old(self).name_generator.issued()),
            expr is Unary,
            old(self).symbol_value_map.wf(),
            old(func_data).wf(g, f),
            bindings_ok(old(self).symbol_value_map, old(func_data).values@.len(), g, f),
            ctx_ok(*ctx, *old(func_data)),
        ensures
            r matches Some(Ok((v, c))) ==> op_placed(*final(func_data), v, c, expr@),
            names_from(final(func_data).bbs@, final(self).name_generator.issued()),
            r matches Some(Ok((v, _))) ==> denotes(*final(func_data), old(self).symbol_value_map, v, expr@),
            final(self).name_generator.made() <= old(self).name_generator.made() + blocks_expr(expr@),
            final(self).symbol_value_map == old(self).symbol_value_map,
            final(self).ast == old(self).ast,
            final(func_data).wf(g, f),
            frame(*old(func_data), *final(func_data), ctx.in_block),
            expr_post(r, spec_build_expr(names_of(old(self).symbol_value_map), expr@), *old(func_data), *final(func_data), *ctx, final(self).name_generator@),
        decreases expr, 1int,
    {
        let ghost start = *func_data;
        proof {
            lemma_frame_refl(start, ctx.in_block);
        }
        match expr {
            Expression::Unary(op, inner) => {
                let (value, c1) = match self.build_expr(inner, func_data, ctx, Ghost(g), Ghost(f)) {
                    None => {
                        return None;
                    },
                    Some(Err(e)) => {
                        return Some(Err(e));
                    },
                    Some(Ok(p)) => p,
                };
                let ghost s1 = *func_data;
                let zero = func_data.make_value(ValueKind::Integer(0), Ghost(g), Ghost(f), Ghost(start), Ghost(ctx.in_block));
                match op {
                    UnaryOp::Plus => {
                        proof {
                            lemma_denotes_kept(s1, *func_data, self.symbol_value_map, value, (**inner)@);
                        }
                        Some(Ok((value, c1)))
                    },
                    UnaryOp::Minus => {
                        let v = func_data.emit(ValueKind::Binary(IrBinaryOp::Sub, zero, value), c1.in_block, Ghost(g), Ghost(f), Ghost(start), Ghost(ctx.in_block));
                        proof {
                            lemma_denotes_kept(s1, *func_data, self.symbol_value_map, value, (**inner)@);
                        }
                        Some(Ok((v, c1)))
                    },
                    UnaryOp::LogicalNot => {
                        let v = func_data.emit(ValueKind::Binary(IrBinaryOp::Eq, zero, value), c1.in_block, Ghost(g), Ghost(f), Ghost(start), Ghost(ctx.in_block));
                        proof {
                            lemma_denotes_kept(s1, *func_data, self.symbol_value_map, value, (**inner)@);
                        }
                        Some(Ok((v, c1)))
                    },
                }
            },
            _ => {
                proof {
                    assert(false);
                }
                None
            },
        }
    }

    /// Builds a binary operation.
    fn build_binary(&mut self, expr: &Expression, func_data: &mut FunctionData, ctx: &Context, Ghost(g): Ghost<nat>, Ghost(f): Ghost<nat>) -> (r: Option<Result<(Value, Context), ProgramBuilderError>>)
        requires
            names_from(old(func_data).bbs@, old(self).name_generator.issued()),
            expr is Binary,
            old(self).symbol_value_map.wf(),
            old(func_data).wf(g, f),
            bindings_ok(old(self).symbol_value_map, old(func_data).values@.len(), g, f),
            ctx_ok(*ctx, *old(func_data)),
        ensures
            r matches Some(Ok((v, c))) ==> op_placed(*final(func_data), v, c, expr@),
            names_from(final(func_data).bbs@, final(self).name_generator.issued()),
            r matches Some(Ok((v, _))) ==> denotes(*final(func_data), old(self).symbol_value_map, v, expr@),
            final(self).name_generator.made() <= old(self).name_generator.made() + blocks_expr(expr@),
            final(self).symbol_value_map == old(self).symbol_value_map,
            final(self).ast == old(self).ast,
            final(func_data).wf(g, f),
            frame(*old(func_data), *final(func_data), ctx.in_block),
            expr_post(r, spec_build_expr(names_of(old(self).symbol_value_map), expr@), *old(func_data), *final(func_data), *ctx, final(self).name_generator@),
        decreases expr, 1int,
    {
        let ghost start = *func_data;
        proof {
            lemma_frame_refl(start, ctx.in_block);
        }
        match expr {
            Expression::Binary(e1, op, e2) => {
                if matches!(op, BinaryOp::LogicalAnd | BinaryOp::LogicalOr) {
                    let (result, rctx) = match self.handle_short_circuit_eval(expr, func_data, ctx, Ghost(g), Ghost(f)) {
                        None => {
                            return None;
                        },
                        Some(Err(e)) => {
                            return Some(Err(e));
                        },
                        Some(Ok(p)) => p,
                    };
                    let load = func_data.emit(ValueKind::Load(result), rctx.in_block, Ghost(g), Ghost(f), Ghost(start), Ghost(ctx.in_block));
                    return Some(Ok((load, rctx)));
                }
                let (v1, c1) = match self.build_expr(e1, func_data, ctx, Ghost(g), Ghost(f)) {
                    None => {
                        return None;
                    },
                    Some(Err(e)) => {
                        return Some(Err(e));
                    },
                    Some(Ok(p)) => p,
                };
                let ghost s1 = *func_data;
                let r2 = self.build_expr(e2, func_data, &c1, Ghost(g), Ghost(f));
                proof {
                    lemma_frame_new_block(start, s1, *func_data, ctx.in_block, c1.in_block);
                }
                let (v2, c2) = match r2 {
                    None => {
                        return None;
                    },
                    Some(Err(e)) => {
                        return Some(Err(e));
                    },
                    Some(Ok(p)) => p,
                };
                let ghost s2 = *func_data;
                let _zero = func_data.make_value(ValueKind::Integer(0), Ghost(g), Ghost(f), Ghost(start), Ghost(ctx.in_block));
                let kop = match op {
                    BinaryOp::Add => IrBinaryOp::Add,
                    BinaryOp::Sub => IrBinaryOp::Sub,
                    BinaryOp::Mul => IrBinaryOp::Mul,
                    BinaryOp::Div => IrBinaryOp::Div,
                    BinaryOp::Rem => IrBinaryOp::Mod,
                    BinaryOp::Less => IrBinaryOp::Lt,
                    BinaryOp::Le => IrBinaryOp::Le,
                    BinaryOp::Eq => IrBinaryOp::Eq,
                    BinaryOp::Ge => IrBinaryOp::Ge,
                    BinaryOp::Greater => IrBinaryOp::Gt,
                    BinaryOp::NotEq => IrBinaryOp::NotEq,
                    BinaryOp::LogicalAnd | BinaryOp::LogicalOr => IrBinaryOp::NotEq,
                };
                let v = func_data.emit(ValueKind::Binary(kop, v1, v2), c2.in_block, Ghost(g), Ghost(f), Ghost(start), Ghost(ctx.in_block));
                proof {
                    assert(values_kept(s2, *func_data));
                    lemma_values_kept_trans(s1, s2, *func_data);
                    lemma_denotes_kept(s1, *func_data, self.symbol_value_map, v1, (**e1)@);
                    lemma_denotes_kept(s2, *func_data, self.symbol_value_map, v2, (**e2)@);
                }
                Some(Ok((v, c2)))
            },
            _ => {
                proof {
                    assert(false);
                }
                None
            },
        }
    }

    /// Builds a call.
    fn build_call(&mut self, expr: &Expression, func_data: &mut FunctionData, ctx: &Context, Ghost(g): Ghost<nat>, Ghost(f): Ghost<nat>) -> (r: Option<Result<(Value, Context), ProgramBuilderError>>)
        requires
            names_from(old(func_data).bbs@, old(self).name_generator.issued()),
            expr is Call,
            old(self).symbol_value_map.wf(),
            old(func_data).wf(g, f),
            bindings_ok(old(self).symbol_value_map, old(func_data).values@.len(), g, f),
            ctx_ok(*ctx, *old(func_data)),
        ensures
            names_from(final(func_data).bbs@, final(self).name_generator.issued()),
            r matches Some(Ok((v, _))) ==> denotes(*final(func_data), old(self).symbol_value_map, v, expr@),
            final(self).name_generator.made() <= old(self).name_generator.made() + blocks_expr(expr@),
            final(self).symbol_value_map == old(self).symbol_value_map,
            final(self).ast == old(self).ast,
            final(func_data).wf(g, f),
            frame(*old(func_data), *final(func_data), ctx.in_block),
            expr_post(r, spec_build_expr(names_of(old(self).symbol_value_map), expr@), *old(func_data), *final(func_data), *ctx, final(self).name_generator@),
        decreases expr, 1int,
    {
        let ghost start = *func_data;
        let ghost ns = names_of(self.symbol_value_map);
        proof {
            lemma_frame_refl(start, ctx.in_block);
        }
        match expr {
            Expression::Call(id, args) => {
                proof {
                    lemma_scoped_lookup(self.symbol_value_map.functions(), id.name@);
                }
                let callee = match self.symbol_value_map.find_function(&id.name) {
                    None => {
                        assert(!bound(ns.funcs, id.name@)) by {
                            if bound(ns.funcs, id.name@) {
                                let i = choose|i: int| 0 <= i < ns.funcs.len() && ns.funcs[i].contains(id.name@);
                                assert(self.symbol_value_map.functions()[i].contains_key(id.name@));
                            }
                        }
                        return None;
                    },
                    Some(c) => c,
                };
                proof {
                    let i = choose|i: int| 0 <= i < self.symbol_value_map.functions().len() && self.symbol_value_map.functions()[i].contains_key(id.name@) && self.symbol_value_map.functions()[i][id.name@] == callee;
                    assert(ns.funcs[i].contains(id.name@));
                    lemma_expr_seq_view(args@);
                }
                let ghost av = expr_seq_view(args@);
                let mut vals: Vec<Value> = Vec::new();
                let mut current = *ctx;
                let mut i: usize = 0;
                while i < args.len()
                    invariant
                        names_from(func_data.bbs@, self.name_generator.issued()),
                        self.symbol_value_map == old(self).symbol_value_map,
                        self.ast == old(self).ast,
                        ns == names_of(self.symbol_value_map),
                        self.symbol_value_map.wf(),
                        start == *old(func_data),
                        start.wf(g, f),
                        func_data.wf(g, f),
                        bindings_ok(self.symbol_value_map, start.values@.len(), g, f),
                        frame(start, *func_data, ctx.in_block),
                        ctx_ok(current, *func_data),
                        current.while_begin == ctx.while_begin,
                        current.while_end == ctx.while_end,
                        current.in_block == ctx.in_block || current.in_block.0 >= start.bbs@.len(),
                        i <= args@.len(),
                        av == expr_seq_view(args@),
                        av.len() == args@.len(),
                        forall|j: int| 0 <= j < args@.len() ==> av[j] == expr_view(#[trigger] args@[j]),
                        spec_build_args(ns, av, 0) == spec_build_args(ns, av, i as int),
                        self.name_generator.made() + blocks_args(av, i as int) <= old(self).name_generator.made() + blocks_args(av, 0),
                        vals@.len() == i,
                        forall|j: int| 0 <= j < i ==> value_ok(#[trigger] vals@[j], func_data.values@.len(), g),
                        forall|j: int| 0 <= j < i ==> denotes(*func_data, self.symbol_value_map, #[trigger] vals@[j], av[j]),
                        callee.0 < f,
                        *expr == Expression::Call(*id, *args),
                        bound(ns.funcs, id.name@),
                        expr@ == ExprView::Call(id@, av),
                    decreases args@.len() - i,
                {
                    proof {
                        assert(decreases_to!(*expr => (*expr)->Call_1));
                        assert(decreases_to!(*args => args@));
                        assert(decreases_to!(args@ => args@[i as int]));
                    }
                    let ghost before = *func_data;
                    proof {
                        assert forall|n: Seq<char>, k: int| 0 <= k < self.symbol_value_map.values().len() && #[trigger] self.symbol_value_map.values()[k].contains_key(n)
                            implies value_ok(self.symbol_value_map.values()[k][n], before.values@.len(), g) by {
                            assert(value_ok(self.symbol_value_map.values()[k][n], start.values@.len(), g));
                        }
                    }
                    assert(av[i as int] == expr_view(args@[i as int]));
                    let ra = self.build_expr(&args[i], func_data, &current, Ghost(g), Ghost(f));
                    proof {
                        lemma_frame_new_block(start, before, *func_data, ctx.in_block, current.in_block);
                    }
                    let (v, c) = match ra {
                        None => {
                            return None;
                        },
                        Some(Err(e)) => {
                            assert(spec_build_args(ns, av, i as int) == Some(false));
                            return Some(Err(e));
                        },
                        Some(Ok(p)) => p,
                    };
                    proof {
                        assert forall|j: int| 0 <= j < i implies value_ok(#[trigger] vals@[j], func_data.values@.len(), g) by {
                            assert(value_ok(vals@[j], before.values@.len(), g));
                        }
                        assert forall|j: int| 0 <= j < i implies denotes(*func_data, self.symbol_value_map, #[trigger] vals@[j], av[j]) by {
                            lemma_denotes_kept(before, *func_data, self.symbol_value_map, vals@[j], av[j]);
                        }
                    }
                    vals.push(v);
                    current = c;
                    i = i + 1;
                }
                let ghost pre = *func_data;
                proof {
                    start.lemma_insts_bounded(g, f, ctx.in_block);
                    lemma_args_denote_each(pre, self.symbol_value_map, vals@, av, 0);
                }
                let ghost vs = vals@;
                let call = func_data.emit(ValueKind::Call(callee, vals), current.in_block, Ghost(g), Ghost(f), Ghost(start), Ghost(ctx.in_block));
                proof {
                    lemma_args_denote_kept(pre, *func_data, self.symbol_value_map, vs, av, 0);
                }
                Some(Ok((call, current)))
            },
            _ => {
                proof {
                    assert(false);
                }
                None
            },
        }
    }

    /// Builds `lhs && rhs` or `lhs || rhs` so that `rhs` is evaluated only
    /// where `lhs` does not decide the result: the result is stored in a
    /// new local, which is returned with the context of a new block where
    /// code goes on.
    /// Builds a statement into the current block of the context: the
    /// context where code goes on.
    fn build_stmt(&mut self, stmt: &Statement, func_data: &mut FunctionData, ctx: &Context, Ghost(g): Ghost<nat>, Ghost(f): Ghost<nat>) -> (r: Option<Result<Context, ProgramBuilderError>>)
        requires
            names_from(old(func_data).bbs@, old(self).name_generator.issued()),
            old(self).symbol_value_map.wf(),
            old(func_data).wf(g, f),
            bindings_ok(old(self).symbol_value_map, old(func_data).values@.len(), g, f),
            ctx_ok(*ctx, *old(func_data)),
        ensures
            names_from(final(func_data).bbs@, final(self).name_generator.issued()),
            r matches Some(Ok(c)) ==> stmt_effect(*old(func_data), *final(func_data), old(self).symbol_value_map, final(self).symbol_value_map, *ctx, c, stmt@),
            final(self).name_generator.made() <= old(self).name_generator.made() + blocks_stmt(stmt@),
            final(self).ast == old(self).ast,
            final(self).symbol_value_map.wf(),
            final(func_data).wf(g, f),
            bindings_ok(final(self).symbol_value_map, final(func_data).values@.len(), g, f),
            frame(*old(func_data), *final(func_data), ctx.in_block),
            stmt_post(r, spec_build_stmt(names_of(old(self).symbol_value_map), ctx.while_end is Some, stmt@), *old(func_data), *final(func_data), *ctx, final(self).name_generator@, names_of(final(self).symbol_value_map)),
            r matches Some(Ok(_)) ==> outer_kept(old(self).symbol_value_map, final(self).symbol_value_map),
        decreases stmt, 2int,
    {
        match stmt {
            Statement::Return(_) => self.build_return(stmt, func_data, ctx, Ghost(g), Ghost(f)),
            Statement::ConstDecl(_) => {
                proof {
                    lemma_frame_refl(*func_data, ctx.in_block);
                }
                Some(Ok(*ctx))
            },
            Statement::VarDecl(_) => self.build_var_decl(stmt, func_data, ctx, Ghost(g), Ghost(f)),
            Statement::Assign(_, _) => self.build_assign(stmt, func_data, ctx, Ghost(g), Ghost(f)),
            Statement::Expression(oe) => {
                proof {
                    lemma_frame_refl(*func_data, ctx.in_block);
                }
                match oe {
                    None => Some(Ok(*ctx)),
                    Some(e) => {
                        let ghost before = *func_data;
                        let r = self.build_expr(e, func_data, ctx, Ghost(g), Ghost(f));
                        proof {
                            lemma_bindings_ok_mono(self.symbol_value_map, before.values@.len(), func_data.values@.len(), g, f);
                        }
                        match r {
                            None => None,
                            Some(Err(e)) => Some(Err(e)),
                            Some(Ok((_, c))) => Some(Ok(c)),
                        }
                    },
                }
            },
            Statement::Block(_) => self.build_block(stmt, func_data, ctx, Ghost(g), Ghost(f)),
            Statement::If(_, _, _) => self.build_if(stmt, func_data, ctx, Ghost(g), Ghost(f)),
            Statement::While(_, _) => self.build_while(stmt, func_data, ctx, Ghost(g), Ghost(f)),
            Statement::Break => self.build_break(stmt, func_data, ctx, Ghost(g), Ghost(f)),
            Statement::Continue => self.build_break(stmt, func_data, ctx, Ghost(g), Ghost(f)),
        }
    }

    /// Builds a `return`.
    fn build_return(&mut self, stmt: &Statement, func_data: &mut FunctionData, ctx: &Context, Ghost(g): Ghost<nat>, Ghost(f): Ghost<nat>) -> (r: Option<Result<Context, ProgramBuilderError>>)
        requires
            names_from(old(func_data).bbs@, old(self).name_generator.issued()),
            stmt is Return,
            old(self).symbol_value_map.wf(),
            old(func_data).wf(g, f),
            bindings_ok(old(self).symbol_value_map, old(func_data).values@.len(), g, f),
            ctx_ok(*ctx, *old(func_data)),
        ensures
            names_from(final(func_data).bbs@, final(self).name_generator.issued()),
            r matches Some(Ok(c)) ==> stmt_effect(*old(func_data), *final(func_data), old(self).symbol_value_map, final(self).symbol_value_map, *ctx, c, stmt@),
            final(self).name_generator.made() <= old(self).name_generator.made() + blocks_stmt(stmt@),
            final(self).ast == old(self).ast,
            final(self).symbol_value_map.wf(),
            final(func_data).wf(g, f),
            bindings_ok(final(self).symbol_value_map, final(func_data).values@.len(), g, f),
            frame(*old(func_data), *final(func_data), ctx.in_block),
            stmt_post(r, spec_build_stmt(names_of(old(self).symbol_value_map), ctx.while_end is Some, stmt@), *old(func_data), *final(func_data), *ctx, final(self).name_generator@, names_of(final(self).symbol_value_map)),
            r matches Some(Ok(_)) ==> outer_kept(old(self).symbol_value_map, final(self).symbol_value_map),
        decreases stmt, 1int,
    {
        let ghost start = *func_data;
        proof {
            lemma_frame_refl(start, ctx.in_block);
            start.lemma_insts_bounded(g, f, ctx.in_block);
        }
        let e = match stmt {
            Statement::Return(e) => e,
            _ => {
                proof {
                    assert(false);
                }
                return None;
            },
        };
        let r = self.build_expr(e, func_data, ctx, Ghost(g), Ghost(f));
        proof {
            lemma_bindings_ok_mono(self.symbol_value_map, start.values@.len(), func_data.values@.len(), g, f);
        }
        let (v, c) = match r {
            None => {
                return None;
            },
            Some(Err(e)) => {
                return Some(Err(e));
            },
            Some(Ok(p)) => p,
        };
        let ghost before = *func_data;
        let _ret = func_data.emit(ValueKind::Return(Some(v)), c.in_block, Ghost(g), Ghost(f), Ghost(start), Ghost(ctx.in_block));
        proof {
            lemma_bindings_ok_mono(self.symbol_value_map, start.values@.len(), func_data.values@.len(), g, f);
            lemma_denotes_kept(before, *func_data, self.symbol_value_map, v, e@);
        }
        Some(Ok(c))
    }

    /// Builds an assignment.
    fn build_assign(&mut self, stmt: &Statement, func_data: &mut FunctionData, ctx: &Context, Ghost(g): Ghost<nat>, Ghost(f): Ghost<nat>) -> (r: Option<Result<Context, ProgramBuilderError>>)
        requires
            names_from(old(func_data).bbs@, old(self).name_generator.issued()),
            stmt is Assign,
            old(self).symbol_value_map.wf(),
            old(func_data).wf(g, f),
            bindings_ok(old(self).symbol_value_map, old(func_data).values@.len(), g, f),
            ctx_ok(*ctx, *old(func_data)),
        ensures
            names_from(final(func_data).bbs@, final(self).name_generator.issued()),
            r matches Some(Ok(c)) ==> stmt_effect(*old(func_data), *final(func_data), old(self).symbol_value_map, final(self).symbol_value_map, *ctx, c, stmt@),
            final(self).name_generator.made() <= old(self).name_generator.made() + blocks_stmt(stmt@),
            final(self).ast == old(self).ast,
            final(self).symbol_value_map.wf(),
            final(func_data).wf(g, f),
            bindings_ok(final(self).symbol_value_map, final(func_data).values@.len(), g, f),
            frame(*old(func_data), *final(func_data), ctx.in_block),
            stmt_post(r, spec_build_stmt(names_of(old(self).symbol_value_map), ctx.while_end is Some, stmt@), *old(func_data), *final(func_data), *ctx, final(self).name_generator@, names_of(final(self).symbol_value_map)),
            r matches Some(Ok(_)) ==> outer_kept(old(self).symbol_value_map, final(self).symbol_value_map),
        decreases stmt, 1int,
    {
        let ghost start = *func_data;
        let ghost ns = names_of(self.symbol_value_map);
        proof {
            lemma_frame_refl(start, ctx.in_block);
            start.lemma_insts_bounded(g, f, ctx.in_block);
        }
        let (lval, e) = match stmt {
            Statement::Assign(l, e) => (l, e),
            _ => {
                proof {
                    assert(false);
                }
                return None;
            },
        };
        proof {
            lemma_scoped_lookup(self.symbol_value_map.values(), lval.name@);
        }
        let dest = match self.symbol_value_map.find_value(&lval.name) {
            None => {
                assert(!bound(ns.vals, lval.name@)) by {
                    if bound(ns.vals, lval.name@) {
                        let i = choose|i: int| 0 <= i < ns.vals.len() && ns.vals[i].contains(lval.name@);
                        assert(self.symbol_value_map.values()[i].contains_key(lval.name@));
                    }
                }
                return None;
            },
            Some(d) => d,
        };
        proof {
            let i = choose|i: int| 0 <= i < self.symbol_value_map.values().len() && self.symbol_value_map.values()[i].contains_key(lval.name@) && self.symbol_value_map.values()[i][lval.name@] == dest;
            assert(ns.vals[i].contains(lval.name@));
        }
        let r = self.build_expr(e, func_data, ctx, Ghost(g), Ghost(f));
        proof {
            lemma_bindings_ok_mono(self.symbol_value_map, start.values@.len(), func_data.values@.len(), g, f);
        }
        let (v, c) = match r {
            None => {
                return None;
            },
            Some(Err(e)) => {
                return Some(Err(e));
            },
            Some(Ok(p)) => p,
        };
        let ghost before = *func_data;
        let _st = func_data.emit(ValueKind::Store(v, dest), c.in_block, Ghost(g), Ghost(f), Ghost(start), Ghost(ctx.in_block));
        proof {
            lemma_bindings_ok_mono(self.symbol_value_map, start.values@.len(), func_data.values@.len(), g, f);
            lemma_denotes_kept(before, *func_data, self.symbol_value_map, v, e@);
        }
        Some(Ok(c))
    }

    /// Builds a `break` or a `continue`: a jump to the end or to the guard of
    /// the innermost `while`, and a new block for what follows.
    fn build_break(&mut self, stmt: &Statement, func_data: &mut FunctionData, ctx: &Context, Ghost(g): Ghost<nat>, Ghost(f): Ghost<nat>) -> (r: Option<Result<Context, ProgramBuilderError>>)
        requires
            names_from(old(func_data).bbs@, old(self).name_generator.issued()),
            stmt is Break || stmt is Continue,
            old(self).symbol_value_map.wf(),
            old(func_data).wf(g, f),
            bindings_ok(old(self).symbol_value_map, old(func_data).values@.len(), g, f),
            ctx_ok(*ctx, *old(func_data)),
        ensures
            names_from(final(func_data).bbs@, final(self).name_generator.issued()),
            r matches Some(Ok(c)) ==> stmt_effect(*old(func_data), *final(func_data), old(self).symbol_value_map, final(self).symbol_value_map, *ctx, c, stmt@),
            final(self).name_generator.made() <= old(self).name_generator.made() + blocks_stmt(stmt@),
            final(self).ast == old(self).ast,
            final(self).symbol_value_map.wf(),
            final(func_data).wf(g, f),
            bindings_ok(final(self).symbol_value_map, final(func_data).values@.len(), g, f),
            frame(*old(func_data), *final(func_data), ctx.in_block),
            stmt_post(r, spec_build_stmt(names_of(old(self).symbol_value_map), ctx.while_end is Some, stmt@), *old(func_data), *final(func_data), *ctx, final(self).name_generator@, names_of(final(self).symbol_value_map)),
            r matches Some(Ok(_)) ==> outer_kept(old(self).symbol_value_map, final(self).symbol_value_map),
        decreases stmt, 1int,
    {
        let ghost start = *func_data;
        proof {
            lemma_frame_refl(start, ctx.in_block);
            start.lemma_insts_bounded(g, f, ctx.in_block);
        }
        let is_break = match stmt {
            Statement::Break => true,
            _ => false,
        };
        let target = if is_break { ctx.while_end } else { ctx.while_begin };
        let target = match target {
            Some(t) => t,
            None => {
                return None;
            },
        };
        let _j = func_data.emit(ValueKind::Jump(target), ctx.in_block, Ghost(g), Ghost(f), Ghost(start), Ghost(ctx.in_block));
        let name = if is_break { "%after_break" } else { "%after_continue" };
        let after = match self.new_named_block(name, func_data, Ghost(g), Ghost(f), Ghost(start), Ghost(ctx.in_block)) {
            Some(b) => b,
            None => {
                return None;
            },
        };
        proof {
            lemma_bindings_ok_mono(self.symbol_value_map, start.values@.len(), func_data.values@.len(), g, f);
        }
        Some(Ok(Context { in_block: after, while_begin: ctx.while_begin, while_end: ctx.while_end }))
    }

    /// Builds a variable declaration: for each entry, a slot allocated in the
    /// block the declaration starts in and bound to the name, then the store
    /// of its initialiser, if it has one, built from that same context.
    fn build_var_decl(&mut self, stmt: &Statement, func_data: &mut FunctionData, ctx: &Context, Ghost(g): Ghost<nat>, Ghost(f): Ghost<nat>) -> (r: Option<Result<Context, ProgramBuilderError>>)
        requires
            names_from(old(func_data).bbs@, old(self).name_generator.issued()),
            stmt is VarDecl,
            old(self).symbol_value_map.wf(),
            old(func_data).wf(g, f),
            bindings_ok(old(self).symbol_value_map, old(func_data).values@.len(), g, f),
            ctx_ok(*ctx, *old(func_data)),
        ensures
            names_from(final(func_data).bbs@, final(self).name_generator.issued()),
            r matches Some(Ok(c)) ==> stmt_effect(*old(func_data), *final(func_data), old(self).symbol_value_map, final(self).symbol_value_map, *ctx, c, stmt@),
            final(self).name_generator.made() <= old(self).name_generator.made() + blocks_stmt(stmt@),
            final(self).ast == old(self).ast,
            final(self).symbol_value_map.wf(),
            final(func_data).wf(g, f),
            bindings_ok(final(self).symbol_value_map, final(func_data).values@.len(), g, f),
            frame(*old(func_data), *final(func_data), ctx.in_block),
            stmt_post(r, spec_build_stmt(names_of(old(self).symbol_value_map), ctx.while_end is Some, stmt@), *old(func_data), *final(func_data), *ctx, final(self).name_generator@, names_of(final(self).symbol_value_map)),
            r matches Some(Ok(_)) ==> outer_kept(old(self).symbol_value_map, final(self).symbol_value_map),
        decreases stmt, 1int,
    {
        let ghost start = *func_data;
        let ghost ns0 = names_of(self.symbol_value_map);
        proof {
            lemma_frame_refl(start, ctx.in_block);
        }
        let v = match stmt {
            Statement::VarDecl(v) => v,
            _ => {
                proof {
                    assert(false);
                }
                return None;
            },
        };
        let ghost vv = var_decl_view(v@);
        let mut outer = *ctx;
        let mut i: usize = 0;
        while i < v.len()
            invariant
                names_from(func_data.bbs@, self.name_generator.issued()),
                self.ast == old(self).ast,
                self.symbol_value_map.wf(),
                start == *old(func_data),
                start.wf(g, f),
                func_data.wf(g, f),
                bindings_ok(self.symbol_value_map, func_data.values@.len(), g, f),
                frame(start, *func_data, ctx.in_block),
                ctx_ok(*ctx, *func_data),
                ctx_ok(outer, *func_data),
                outer.while_begin == ctx.while_begin,
                outer.while_end == ctx.while_end,
                outer.in_block == ctx.in_block || outer.in_block.0 >= start.bbs@.len(),
                last_ok(if i == 0 { Last::Keep } else { Last::Other }, start, *func_data, ctx.in_block, outer.in_block),
                i <= v@.len(),
                *stmt == Statement::VarDecl(*v),
                vv == var_decl_view(v@),
                stmt@ == StmtView::VarDecl(vv),
                ns0 == names_of(old(self).symbol_value_map),
                spec_build_vars(ns0, vv, 0) == spec_build_vars(names_of(self.symbol_value_map), vv, i as int),
                outer_kept(old(self).symbol_value_map, self.symbol_value_map),
                self.name_generator.made() + blocks_vars(vv, i as int) <= old(self).name_generator.made() + blocks_vars(vv, 0),
                forall|k: int| 0 <= k < i ==> #[trigger] slot_bound(*func_data, self.symbol_value_map, vv[k].1.name),
                forall|k: int| 0 <= k < i && vv[k].2 is Some ==> #[trigger] init_stored(*func_data, self.symbol_value_map, vv, k, i as int),
            decreases v@.len() - i,
        {
            let ghost before = *func_data;
            let ghost svm0 = self.symbol_value_map;
            proof {
                before.lemma_insts_bounded(g, f, ctx.in_block);
                before.lemma_insts_bounded(g, f, outer.in_block);
            }
            let alloc = func_data.emit(ValueKind::Alloc(IrType::I32), ctx.in_block, Ghost(g), Ghost(f), Ghost(start), Ghost(ctx.in_block));
            proof {
                lemma_bindings_ok_mono(self.symbol_value_map, before.values@.len(), func_data.values@.len(), g, f);
                if i > 0 && outer.in_block != ctx.in_block {
                    let k = before.insts(outer.in_block).len() - 1;
                    assert(before.insts(outer.in_block)[k]->Local_0 < before.values@.len());
                }
            }
            self.symbol_value_map.add_value(v[i].1.name.clone(), alloc);
            let ghost bound = self.symbol_value_map;
            let ghost allocated = *func_data;
            proof {
                assert(self.symbol_value_map.values().last() == svm0.values().last().insert(vv[i as int].1.name, alloc));
                assert forall|s: Value| #[trigger] laid_out(before, s) implies laid_out(allocated, s) by {
                    lemma_laid_out_emit(before, allocated, ctx.in_block, alloc, s);
                }
                assert forall|k: int| 0 <= k < i && !#[trigger] redeclared(vv, k, i + 1) implies !redeclared(vv, k, i as int)
                    && bound.values().last()[vv[k].1.name] == svm0.values().last()[vv[k].1.name] by {
                    if vv[i as int].1.name == vv[k].1.name {
                        assert(redeclared(vv, k, i + 1));
                    }
                }
                lemma_inits_kept(before, allocated, svm0, bound, vv, i as int, i as int, i + 1);
                lemma_names_add_value(svm0, self.symbol_value_map, v@[i as int].1.name@, alloc, func_data.values@.len(), g, f);
                svm0.lemma_wf();
                assert(outer_kept(svm0, self.symbol_value_map));
                lemma_outer_kept_trans(old(self).symbol_value_map, svm0, self.symbol_value_map);
                assert forall|k: int| 0 <= k <= i implies #[trigger] slot_bound(*func_data, self.symbol_value_map, vv[k].1.name) by {
                    if k < i && vv[k].1.name != vv[i as int].1.name {
                        assert(slot_bound(before, svm0, vv[k].1.name));
                        let x = svm0.values().last()[vv[k].1.name]->Local_0;
                        assert(func_data.values@[x as int] == before.values@[x as int]);
                    }
                }
            }
            match &v[i].2 {
                None => {},
                Some(e) => {
                    let ghost mid = *func_data;
                    let re = self.build_expr(e, func_data, ctx, Ghost(g), Ghost(f));
                    proof {
                        lemma_frame_trans(start, mid, *func_data, ctx.in_block);
                        lemma_bindings_ok_mono(self.symbol_value_map, mid.values@.len(), func_data.values@.len(), g, f);
                        lemma_grows_in_layout(mid, *func_data, ctx.in_block);
                    }
                    let (val, c) = match re {
                        None => {
                            return None;
                        },
                        Some(Err(err)) => {
                            return Some(Err(err));
                        },
                        Some(Ok(p)) => p,
                    };
                    proof {
                        func_data.lemma_insts_bounded(g, f, c.in_block);
                    }
                    let ghost evaluated = *func_data;
                    let st = func_data.emit(ValueKind::Store(val, alloc), c.in_block, Ghost(g), Ghost(f), Ghost(start), Ghost(ctx.in_block));
                    proof {
                        assert forall|s: Value| #[trigger] laid_out(mid, s) implies laid_out(*func_data, s) by {
                            lemma_laid_out_grows(mid, evaluated, s);
                            lemma_laid_out_emit(evaluated, *func_data, c.in_block, st, s);
                        }
                        lemma_inits_kept(mid, *func_data, bound, bound, vv, i as int, i + 1, i + 1);
                        assert(func_data.insts(c.in_block)[func_data.insts(c.in_block).len() - 1] == st);
                        assert(func_data.insts(c.in_block).contains(st));
                        lemma_denotes_kept(evaluated, *func_data, bound, val, vv[i as int].2->0);
                        assert(func_data.values@[alloc->Local_0 as int] == ValueKind::Alloc(IrType::I32));
                        assert(stores_init(*func_data, st, bound, vv[i as int].1.name, vv[i as int].2->0));
                        assert(!redeclared(vv, i as int, i + 1));
                        assert(init_stored(*func_data, bound, vv, i as int, i + 1));
                        lemma_bindings_ok_mono(self.symbol_value_map, mid.values@.len(), func_data.values@.len(), g, f);
                        assert forall|k: int| 0 <= k <= i implies #[trigger] slot_bound(*func_data, self.symbol_value_map, vv[k].1.name) by {
                            assert(slot_bound(mid, self.symbol_value_map, vv[k].1.name));
                            let x = self.symbol_value_map.values().last()[vv[k].1.name]->Local_0;
                            assert(func_data.values@[x as int] == mid.values@[x as int]);
                        }
                    }
                    outer = c;
                },
            }
            i = i + 1;
        }
        proof {
            reveal(var_decl_effect);
        }
        Some(Ok(outer))
    }

    /// Builds a block: its statements in a new scope, each in the context
    /// that the one before it left.
    fn build_block(&mut self, stmt: &Statement, func_data: &mut FunctionData, ctx: &Context, Ghost(g): Ghost<nat>, Ghost(f): Ghost<nat>) -> (r: Option<Result<Context, ProgramBuilderError>>)
        requires
            names_from(old(func_data).bbs@, old(self).name_generator.issued()),
            stmt is Block,
            old(self).symbol_value_map.wf(),
            old(func_data).wf(g, f),
            bindings_ok(old(self).symbol_value_map, old(func_data).values@.len(), g, f),
            ctx_ok(*ctx, *old(func_data)),
        ensures
            names_from(final(func_data).bbs@, final(self).name_generator.issued()),
            r matches Some(Ok(c)) ==> stmt_effect(*old(func_data), *final(func_data), old(self).symbol_value_map, final(self).symbol_value_map, *ctx, c, stmt@),
            final(self).name_generator.made() <= old(self).name_generator.made() + blocks_stmt(stmt@),
            final(self).ast == old(self).ast,
            final(self).symbol_value_map.wf(),
            final(func_data).wf(g, f),
            bindings_ok(final(self).symbol_value_map, final(func_data).values@.len(), g, f),
            frame(*old(func_data), *final(func_data), ctx.in_block),
            stmt_post(r, spec_build_stmt(names_of(old(self).symbol_value_map), ctx.while_end is Some, stmt@), *old(func_data), *final(func_data), *ctx, final(self).name_generator@, names_of(final(self).symbol_value_map)),
            r matches Some(Ok(_)) ==> outer_kept(old(self).symbol_value_map, final(self).symbol_value_map),
        decreases stmt, 1int,
    {
        let ghost start = *func_data;
        let ghost ns0 = names_of(self.symbol_value_map);
        let ghost w0 = ctx.while_end is Some;
        proof {
            lemma_frame_refl(start, ctx.in_block);
        }
        let ss = match stmt {
            Statement::Block(ss) => ss,
            _ => {
                proof {
                    assert(false);
                }
                return None;
            },
        };
        let ghost ssv = stmt_seq_view(ss@);
        proof {
            lemma_stmt_seq_view(ss@);
        }
        let ghost outer_svm = self.symbol_value_map;
        self.symbol_value_map = self.symbol_value_map.enter_scope();
        proof {
            lemma_names_enter(outer_svm, self.symbol_value_map, start.values@.len(), g, f);
        }
        let ghost entered = self.symbol_value_map;
        let mut cur = *ctx;
        let ghost mut lacc = Last::Keep;
        let mut i: usize = 0;
        while i < ss.len()
            invariant
                names_from(func_data.bbs@, self.name_generator.issued()),
                self.ast == old(self).ast,
                self.symbol_value_map.wf(),
                start == *old(func_data),
                start.wf(g, f),
                func_data.wf(g, f),
                bindings_ok(self.symbol_value_map, func_data.values@.len(), g, f),
                frame(start, *func_data, ctx.in_block),
                ctx_ok(cur, *func_data),
                cur.while_begin == ctx.while_begin,
                cur.while_end == ctx.while_end,
                cur.in_block == ctx.in_block || cur.in_block.0 >= start.bbs@.len(),
                last_ok(lacc, start, *func_data, ctx.in_block, cur.in_block),
                i <= ss@.len(),
                *stmt == Statement::Block(*ss),
                ssv == stmt_seq_view(ss@),
                ssv.len() == ss@.len(),
                forall|j: int| 0 <= j < ss@.len() ==> #[trigger] ssv[j] == stmt_view(*ss@[j]),
                stmt@ == StmtView::Block(ssv),
                ns0 == names_of(old(self).symbol_value_map),
                w0 == (ctx.while_end is Some),
                entered.values() == old(self).symbol_value_map.values().push(Map::empty()),
                entered.functions() == old(self).symbol_value_map.functions().push(Map::empty()),
                outer_kept(entered, self.symbol_value_map),
                self.name_generator.made() + blocks_block(ssv, i as int) <= old(self).name_generator.made() + blocks_block(ssv, 0),
                spec_build_block(names_enter(ns0), w0, ssv, 0) == prepend_effect(lacc, spec_build_block(names_of(self.symbol_value_map), cur.while_end is Some, ssv, i as int)),
            decreases ss@.len() - i,
        {
            proof {
                assert(decreases_to!(*stmt => (*stmt)->Block_0));
                assert(decreases_to!(*ss => ss@));
                assert(decreases_to!(ss@ => ss@[i as int]));
            }
            let ghost before = *func_data;
            let ghost ns_i = names_of(self.symbol_value_map);
            let ghost svm_i = self.symbol_value_map;
            let ghost wi = cur.while_end is Some;
            assert(ssv[i as int] == stmt_view(*ss@[i as int]));
            let rs = self.build_stmt(&ss[i], func_data, &cur, Ghost(g), Ghost(f));
            proof {
                lemma_frame_new_block(start, before, *func_data, ctx.in_block, cur.in_block);
            }
            let c = match rs {
                None => {
                    proof {
                        let sp = spec_build_stmt(ns_i, wi, ssv[i as int]);
                        if sp is None {
                            assert(spec_build_block(ns_i, wi, ssv, i as int) is None);
                            assert(spec_build_block(names_enter(ns0), w0, ssv, 0) is None);
                        }
                    }
                    return None;
                },
                Some(Err(e)) => {
                    proof {
                        let sp = spec_build_stmt(ns_i, wi, ssv[i as int]);
                        assert(spec_build_block(ns_i, wi, ssv, i as int) == sp);
                        assert(spec_build_block(names_enter(ns0), w0, ssv, 0) matches Some((ok, _, _, _)) && !ok);
                    }
                    return Some(Err(e));
                },
                Some(Ok(c)) => c,
            };
            proof {
                let sp = spec_build_stmt(ns_i, wi, ssv[i as int]);
                let t = sp->0;
                let l = t.1;
                lemma_last_ok_then(lacc, l, start, before, *func_data, ctx.in_block, cur.in_block, c.in_block, g, f);
                lemma_outer_kept_trans(entered, svm_i, self.symbol_value_map);
                let rest = spec_build_block(names_of(self.symbol_value_map), c.while_end is Some, ssv, i + 1);
                if rest is Some {
                    let tr = rest->0;
                    lemma_then_last_assoc(lacc, l, tr.1);
                }
                lacc = then_last(lacc, l);
            }
            cur = c;
            i = i + 1;
        }
        let ghost inner = self.symbol_value_map;
        proof {
            inner.lemma_wf();
        }
        match self.symbol_value_map.exit_scope() {
            Ok(parent) => {
                self.symbol_value_map = parent;
                proof {
                    lemma_names_exit(inner, self.symbol_value_map, func_data.values@.len(), g, f);
                    let o = old(self).symbol_value_map;
                    o.lemma_wf();
                    assert forall|k: int| 0 <= k < o.values().len() - 1 implies #[trigger] self.symbol_value_map.values()[k] == o.values()[k] by {
                        assert(inner.values()[k] == entered.values()[k]);
                    }
                    assert forall|k: int| 0 <= k < o.functions().len() - 1 implies #[trigger] self.symbol_value_map.functions()[k] == o.functions()[k] by {
                        assert(inner.functions()[k] == entered.functions()[k]);
                    }
                }
                Some(Ok(cur))
            },
            Err(e) => Some(Err(ProgramBuilderError::SymbolValueMapError(e))),
        }
    }

    /// Builds an `if`: a jump from the current block to a new guard block,
    /// each branch in a new block that ends by jumping to a new merge block
    /// unless it already ends in a jump, and the guard's branch, built last.
    /// Code goes on in the merge block, in the context of the enclosing `while`.
    #[verifier::rlimit(100)]
    #[verifier::spinoff_prover]
    fn build_if(&mut self, stmt: &Statement, func_data: &mut FunctionData, ctx: &Context, Ghost(g): Ghost<nat>, Ghost(f): Ghost<nat>) -> (r: Option<Result<Context, ProgramBuilderError>>)
        requires
            names_from(old(func_data).bbs@, old(self).name_generator.issued()),
            stmt is If,
            old(self).symbol_value_map.wf(),
            old(func_data).wf(g, f),
            bindings_ok(old(self).symbol_value_map, old(func_data).values@.len(), g, f),
            ctx_ok(*ctx, *old(func_data)),
        ensures
            names_from(final(func_data).bbs@, final(self).name_generator.issued()),
            r matches Some(Ok(c)) ==> stmt_effect(*old(func_data), *final(func_data), old(self).symbol_value_map, final(self).symbol_value_map, *ctx, c, stmt@),
            final(self).name_generator.made() <= old(self).name_generator.made() + blocks_stmt(stmt@),
            final(self).ast == old(self).ast,
            final(self).symbol_value_map.wf(),
            final(func_data).wf(g, f),
            bindings_ok(final(self).symbol_value_map, final(func_data).values@.len(), g, f),
            frame(*old(func_data), *final(func_data), ctx.in_block),
            stmt_post(r, spec_build_stmt(names_of(old(self).symbol_value_map), ctx.while_end is Some, stmt@), *old(func_data), *final(func_data), *ctx, final(self).name_generator@, names_of(final(self).symbol_value_map)),
            r matches Some(Ok(_)) ==> outer_kept(old(self).symbol_value_map, final(self).symbol_value_map),
        decreases stmt, 1int,
    {
        let ghost start = *func_data;
        proof {
            lemma_frame_refl(start, ctx.in_block);
            start.lemma_insts_bounded(g, f, ctx.in_block);
        }
        let (guard, then_br, else_br) = match stmt {
            Statement::If(c, t, e) => (c, t, e),
            _ => {
                proof {
                    assert(false);
                }
                return None;
            },
        };
        let guard_bb = match self.new_named_block("%guard", func_data, Ghost(g), Ghost(f), Ghost(start), Ghost(ctx.in_block)) {
            Some(b) => b,
            None => {
                return None;
            },
        };
        let _jg = func_data.emit(ValueKind::Jump(guard_bb), ctx.in_block, Ghost(g), Ghost(f), Ghost(start), Ghost(ctx.in_block));
        let ghost s_j = *func_data;
        proof {
            start.lemma_insts_bounded(g, f, ctx.in_block);
            assert(last_kind(s_j, ctx.in_block) == Some(ValueKind::Jump(guard_bb)));
        }
        assert(func_data.in_layout(guard_bb));
        let merge_bb = match self.new_named_block("%merge", func_data, Ghost(g), Ghost(f), Ghost(s_j), Ghost(guard_bb)) {
            Some(b) => b,
            None => {
                proof {
                    lemma_frame_new_block(start, s_j, *func_data, ctx.in_block, guard_bb);
                }
                return None;
            },
        };
        let then_bb = match self.new_named_block("%then", func_data, Ghost(g), Ghost(f), Ghost(s_j), Ghost(guard_bb)) {
            Some(b) => b,
            None => {
                proof {
                    lemma_frame_new_block(start, s_j, *func_data, ctx.in_block, guard_bb);
                }
                return None;
            },
        };
        assert(func_data.in_layout(guard_bb));
        let ghost s_then = *func_data;
        proof {
            lemma_bindings_ok_mono(self.symbol_value_map, start.values@.len(), s_then.values@.len(), g, f);
            assert(decreases_to!(*stmt => (*stmt)->If_1));
            lemma_not_laid_out(start, merge_bb);
        }
        let tctx = Context { in_block: then_bb, while_begin: ctx.while_begin, while_end: ctx.while_end };
        let ghost svm_t0 = self.symbol_value_map;
        let rt = self.build_stmt(then_br, func_data, &tctx, Ghost(g), Ghost(f));
        let ghost svm_t1 = self.symbol_value_map;
        proof {
            lemma_frame_new_block(s_j, s_then, *func_data, guard_bb, then_bb);
            lemma_frame_insts(s_then, *func_data, then_bb, merge_bb);
            lemma_grows_in_layout(s_then, *func_data, guard_bb);
        }
        let then_ctx = match rt {
            None => {
                proof {
                    lemma_frame_new_block(start, s_j, *func_data, ctx.in_block, guard_bb);
                }
                return None;
            },
            Some(Err(e)) => {
                proof {
                    lemma_frame_new_block(start, s_j, *func_data, ctx.in_block, guard_bb);
                }
                return Some(Err(e));
            },
            Some(Ok(c)) => c,
        };
        let ghost s_then_end = *func_data;
        assert(then_ctx.in_block.0 < s_then_end.bbs@.len()) by {
            if then_ctx.in_block.0 >= s_then_end.bbs@.len() {
                lemma_not_laid_out(s_then_end, then_ctx.in_block);
            }
        }
        proof {
            if then_ctx.in_block != then_bb {
                lemma_not_laid_out(s_then, then_ctx.in_block);
            } else {
                assert(s_then.insts(then_bb).len() == 0);
            }
        }
        jump_if_open(func_data, then_ctx.in_block, merge_bb, Ghost(g), Ghost(f), Ghost(s_j), Ghost(guard_bb));
        let ghost lo_t = (start.bbs@.len() + 2) as nat;
        let ghost s_then_end_j = *func_data;
        proof {
            lemma_closed_after_init(s_then_end, *func_data, then_ctx, merge_bb, lo_t);
        }
        let mut else_bb = merge_bb;
        let ghost mut svm_e0 = self.symbol_value_map;
        let ghost mut svm_e1 = self.symbol_value_map;
        let ghost mut s_e_mid = *func_data;
        let ghost mut s_e_start = *func_data;
        let ghost mut ectx_g = then_ctx;
        let ghost mut else_end_ctx = then_ctx;
        match else_br {
            Some(eb) => {
                let ebb = match self.new_named_block("%else", func_data, Ghost(g), Ghost(f), Ghost(s_j), Ghost(guard_bb)) {
                    Some(b) => b,
                    None => {
                        proof {
                            lemma_frame_new_block(start, s_j, *func_data, ctx.in_block, guard_bb);
                        }
                        return None;
                    },
                };
                let ghost s_e = *func_data;
                assert(ebb.0 >= start.bbs@.len() + 3) by {
                    assert(s_then.bbs@.len() == start.bbs@.len() + 3);
                    assert(s_then_end.bbs@.len() >= s_then.bbs@.len());
                }
                proof {
                    lemma_closed_after_step(s_then_end, s_then_end_j, s_e, then_ctx, merge_bb, lo_t, ebb, g, f);
                }
                proof {
                    assert(decreases_to!(*stmt => (*stmt)->If_2));
                    assert(decreases_to!((*stmt)->If_2 => (*stmt)->If_2->Some_0));
                }
                let ectx = Context { in_block: ebb, while_begin: ctx.while_begin, while_end: ctx.while_end };
                proof {
                    svm_e0 = self.symbol_value_map;
                }
                let re = self.build_stmt(eb, func_data, &ectx, Ghost(g), Ghost(f));
                proof {
                    svm_e1 = self.symbol_value_map;
                }
                proof {
                    lemma_frame_new_block(s_j, s_e, *func_data, guard_bb, ebb);
                            lemma_frame_insts(s_e, *func_data, ebb, merge_bb);
                    lemma_grows_in_layout(s_e, *func_data, guard_bb);
                }
                let else_ctx = match re {
                    None => {
                        proof {
                            lemma_frame_new_block(start, s_j, *func_data, ctx.in_block, guard_bb);
                        }
                        return None;
                    },
                    Some(Err(e)) => {
                        proof {
                            lemma_frame_new_block(start, s_j, *func_data, ctx.in_block, guard_bb);
                        }
                        return Some(Err(e));
                    },
                    Some(Ok(c)) => c,
                };
                let ghost s_e_end = *func_data;
                assert(else_ctx.in_block.0 < s_e_end.bbs@.len()) by {
                    if else_ctx.in_block.0 >= s_e_end.bbs@.len() {
                        lemma_not_laid_out(s_e_end, else_ctx.in_block);
                    }
                }
                proof {
                    if else_ctx.in_block != ebb {
                        lemma_not_laid_out(s_e, else_ctx.in_block);
                    } else {
                        assert(s_e.insts(ebb).len() == 0);
                    }
                }
                proof {
                    lemma_frame_insts_all(s_e, s_e_end, ebb);
                    lemma_closed_after_step(s_then_end, s_e, s_e_end, then_ctx, merge_bb, lo_t, ebb, g, f);
                }
                jump_if_open(func_data, else_ctx.in_block, merge_bb, Ghost(g), Ghost(f), Ghost(s_j), Ghost(guard_bb));
                proof {
                    if else_ctx.in_block != ebb {
                        assert(else_ctx.in_block.0 >= s_e.bbs@.len());
                    }
                    lemma_closed_after_step(s_then_end, s_e_end, *func_data, then_ctx, merge_bb, lo_t, else_ctx.in_block, g, f);
                    s_e_mid = s_e_end;
                    s_e_start = s_e;
                    ectx_g = ectx;
                    else_end_ctx = else_ctx;
                }
                else_bb = ebb;
            },
            None => {},
        }
        assert(else_br is Some ==> else_bb.0 >= start.bbs@.len() + 3);
        let ghost s_guard = *func_data;
        let gctx = Context { in_block: guard_bb, while_begin: ctx.while_begin, while_end: ctx.while_end };
        let rg = self.build_expr(guard, func_data, &gctx, Ghost(g), Ghost(f));
        proof {
            lemma_frame_new_block(s_j, s_guard, *func_data, guard_bb, guard_bb);
            lemma_frame_insts(s_guard, *func_data, guard_bb, merge_bb);
        }
        proof {
            lemma_frame_insts_all(s_guard, *func_data, guard_bb);
        }
        let ghost s_ge = *func_data;
        let (gv, guard_ctx) = match rg {
            None => {
                proof {
                    lemma_frame_new_block(start, s_j, *func_data, ctx.in_block, guard_bb);
                }
                return None;
            },
            Some(Err(e)) => {
                proof {
                    lemma_frame_new_block(start, s_j, *func_data, ctx.in_block, guard_bb);
                }
                return Some(Err(e));
            },
            Some(Ok(p)) => p,
        };
        proof {
            func_data.lemma_insts_bounded(g, f, guard_ctx.in_block);
        }
        let ghost s_br = *func_data;
        let _br = func_data.emit(ValueKind::Branch(gv, then_bb, else_bb), guard_ctx.in_block, Ghost(g), Ghost(f), Ghost(s_j), Ghost(guard_bb));
        proof {
            let fin = *func_data;
            if guard_ctx.in_block != guard_bb {
                assert(guard_ctx.in_block.0 >= s_guard.bbs@.len());
            }
            lemma_closed_after_step(s_then_end, s_guard, s_ge, then_ctx, merge_bb, lo_t, guard_bb, g, f);
            lemma_closed_after_step(s_then_end, s_ge, fin, then_ctx, merge_bb, lo_t, guard_ctx.in_block, g, f);
            lemma_part_ok(fin, tctx, (*then_br)@, merge_bb, lo_t, s_then, s_then_end, svm_t0, svm_t1, then_ctx);
            assert(then_ctx.in_block.0 < s_then_end.bbs@.len());
        }
        proof {
            lemma_bindings_ok_mono(self.symbol_value_map, s_guard.values@.len(), func_data.values@.len(), g, f);
            lemma_frame_new_block(start, s_j, *func_data, ctx.in_block, guard_bb);
            lemma_frame_insts(s_j, *func_data, guard_bb, ctx.in_block);
            lemma_last_kind_kept(s_j, *func_data, ctx.in_block, g, f);
            lemma_denotes_kept(s_br, *func_data, self.symbol_value_map, gv, guard@);
            assert(func_data.in_layout(guard_ctx.in_block) && (last_kind(*func_data, guard_ctx.in_block) matches Some(ValueKind::Branch(v, tb, eb))
                && tb == BasicBlock((start.bbs@.len() + 2) as usize) && denotes(*func_data, self.symbol_value_map, v, guard@)
                && (else_br is None ==> eb == merge_bb) && (else_br is Some ==> eb.0 >= start.bbs@.len() + 3)));
        }
        Some(Ok(Context { in_block: merge_bb, while_begin: ctx.while_begin, while_end: ctx.while_end }))
    }

    /// Builds a `while`: new guard, body and end blocks, a jump from the
    /// current block to the guard, the guard's branch to the body or the
    /// end, and the body, which ends by jumping back to the guard unless it
    /// already ends in a jump. Code goes on in the end block, in the
    /// context of the enclosing `while`.
    #[verifier::rlimit(100)]
    #[verifier::spinoff_prover]
    fn build_while(&mut self, stmt: &Statement, func_data: &mut FunctionData, ctx: &Context, Ghost(g): Ghost<nat>, Ghost(f): Ghost<nat>) -> (r: Option<Result<Context, ProgramBuilderError>>)
        requires
            names_from(old(func_data).bbs@, old(self).name_generator.issued()),
            stmt is While,
            old(self).symbol_value_map.wf(),
            old(func_data).wf(g, f),
            bindings_ok(old(self).symbol_value_map, old(func_data).values@.len(), g, f),
            ctx_ok(*ctx, *old(func_data)),
        ensures
            names_from(final(func_data).bbs@, final(self).name_generator.issued()),
            r matches Some(Ok(c)) ==> stmt_effect(*old(func_data), *final(func_data), old(self).symbol_value_map, final(self).symbol_value_map, *ctx, c, stmt@),
            final(self).name_generator.made() <= old(self).name_generator.made() + blocks_stmt(stmt@),
            final(self).ast == old(self).ast,
            final(self).symbol_value_map.wf(),
            final(func_data).wf(g, f),
            bindings_ok(final(self).symbol_value_map, final(func_data).values@.len(), g, f),
            frame(*old(func_data), *final(func_data), ctx.in_block),
            stmt_post(r, spec_build_stmt(names_of(old(self).symbol_value_map), ctx.while_end is Some, stmt@), *old(func_data), *final(func_data), *ctx, final(self).name_generator@, names_of(final(self).symbol_value_map)),
            r matches Some(Ok(_)) ==> outer_kept(old(self).symbol_value_map, final(self).symbol_value_map),
        decreases stmt, 1int,
    {
        let ghost start = *func_data;
        proof {
            lemma_frame_refl(start, ctx.in_block);
            start.lemma_insts_bounded(g, f, ctx.in_block);
        }
        let (cond, body) = match stmt {
            Statement::While(c, b) => (c, b),
            _ => {
                proof {
                    assert(false);
                }
                return None;
            },
        };
        let guard_bb = match self.new_named_block("%while_guard", func_data, Ghost(g), Ghost(f), Ghost(start), Ghost(ctx.in_block)) {
            Some(b) => b,
            None => {
                return None;
            },
        };
        let body_bb = match self.new_named_block("%while_body", func_data, Ghost(g), Ghost(f), Ghost(start), Ghost(ctx.in_block)) {
            Some(b) => b,
            None => {
                return None;
            },
        };
        assert(func_data.in_layout(guard_bb));
        let end_bb = match self.new_named_block("%while_end", func_data, Ghost(g), Ghost(f), Ghost(start), Ghost(ctx.in_block)) {
            Some(b) => b,
            None => {
                return None;
            },
        };
        assert(func_data.in_layout(guard_bb));
        assert(func_data.in_layout(body_bb));
        let jump_to_guard = func_data.emit(ValueKind::Jump(guard_bb), ctx.in_block, Ghost(g), Ghost(f), Ghost(start), Ghost(ctx.in_block));
        assert(func_data.in_layout(guard_bb));
        assert(func_data.in_layout(body_bb));
        assert(func_data.insts(end_bb).len() == 0);
        assert(func_data.insts(body_bb).len() == 0);
        let ghost s_guard = *func_data;
        proof {
            lemma_bindings_ok_mono(self.symbol_value_map, start.values@.len(), s_guard.values@.len(), g, f);
            assert(last_kind(s_guard, ctx.in_block) == Some(ValueKind::Jump(guard_bb)));
        }
        let gctx = Context { in_block: guard_bb, while_begin: ctx.while_begin, while_end: ctx.while_end };
        let rg = self.build_expr(cond, func_data, &gctx, Ghost(g), Ghost(f));
        proof {
            lemma_frame_new_block(start, s_guard, *func_data, ctx.in_block, guard_bb);
            lemma_frame_insts(s_guard, *func_data, guard_bb, end_bb);
            lemma_frame_insts(s_guard, *func_data, guard_bb, body_bb);
        }
        let (gv, guard_ctx) = match rg {
            None => {
                return None;
            },
            Some(Err(e)) => {
                return Some(Err(e));
            },
            Some(Ok(p)) => p,
        };
        let ghost s_ge = *func_data;
        proof {
            func_data.lemma_insts_bounded(g, f, guard_ctx.in_block);
            lemma_frame_insts(s_guard, s_ge, guard_bb, ctx.in_block);
        }
        let _br = func_data.emit(ValueKind::Branch(gv, body_bb, end_bb), guard_ctx.in_block, Ghost(g), Ghost(f), Ghost(start), Ghost(ctx.in_block));
        let ghost s_br = *func_data;
        proof {
            assert(last_kind(s_br, guard_ctx.in_block) == Some(ValueKind::Branch(gv, body_bb, end_bb)));
            assert(s_br.insts(ctx.in_block) == s_guard.insts(ctx.in_block));
        }
        assert(func_data.insts(end_bb).len() == 0);
        assert(func_data.insts(body_bb).len() == 0);
        assert(func_data.in_layout(body_bb));
        let ghost s_body = *func_data;
        proof {
            lemma_bindings_ok_mono(self.symbol_value_map, s_guard.values@.len(), s_body.values@.len(), g, f);
            assert(decreases_to!(*stmt => (*stmt)->While_1));
        }
        let bctx = Context { in_block: body_bb, while_begin: Some(guard_bb), while_end: Some(end_bb) };
        let ghost svm_b0 = self.symbol_value_map;
        let rb = self.build_stmt(body, func_data, &bctx, Ghost(g), Ghost(f));
        let ghost svm_b1 = self.symbol_value_map;
        proof {
            lemma_frame_new_block(start, s_body, *func_data, ctx.in_block, body_bb);
            lemma_frame_insts(s_body, *func_data, body_bb, end_bb);
        }
        let body_ctx = match rb {
            None => {
                return None;
            },
            Some(Err(e)) => {
                return Some(Err(e));
            },
            Some(Ok(c)) => c,
        };
        let ghost s_body_end = *func_data;
        proof {
            lemma_frame_insts(s_body, s_body_end, body_bb, ctx.in_block);
            lemma_frame_insts(s_body, s_body_end, body_bb, guard_ctx.in_block);
            if body_ctx.in_block != body_bb {
                lemma_not_laid_out(s_body, body_ctx.in_block);
            }
        }
        jump_if_open(func_data, body_ctx.in_block, guard_bb, Ghost(g), Ghost(f), Ghost(start), Ghost(ctx.in_block));
        assert(func_data.insts(end_bb).len() == 0);
        proof {
            lemma_closed_after_init(s_body_end, *func_data, body_ctx, guard_bb, (start.bbs@.len() + 1) as nat);
        }
        assert(func_data.in_layout(body_ctx.in_block));
        assert(body_ctx.in_block == body_bb || body_ctx.in_block.0 >= start.bbs@.len() + 3);
        proof {
            assert(func_data.insts(ctx.in_block) == s_guard.insts(ctx.in_block));
            assert(func_data.insts(guard_ctx.in_block) == s_br.insts(guard_ctx.in_block));
            assert(values_kept(s_br, s_body_end));
            lemma_values_kept_trans(s_guard, s_ge, s_br);
            lemma_values_kept_trans(s_guard, s_br, s_body_end);
            lemma_values_kept_trans(s_guard, s_body_end, *func_data);
            lemma_values_kept_trans(s_ge, s_br, s_body_end);
            lemma_values_kept_trans(s_ge, s_body_end, *func_data);
            lemma_values_kept_trans(s_br, s_body_end, *func_data);
            lemma_last_kind_kept(s_guard, *func_data, ctx.in_block, g, f);
            lemma_last_kind_kept(s_br, *func_data, guard_ctx.in_block, g, f);
            lemma_denotes_kept(s_ge, *func_data, old(self).symbol_value_map, gv, cond@);
            assert(func_data.in_layout(guard_ctx.in_block) && (last_kind(*func_data, guard_ctx.in_block) matches Some(ValueKind::Branch(v, tb, eb))
                && tb == BasicBlock((start.bbs@.len() + 1) as usize) && eb == BasicBlock((start.bbs@.len() + 2) as usize)
                && denotes(*func_data, old(self).symbol_value_map, v, cond@)));
        }
        proof {
            assert(bctx == Context { in_block: BasicBlock((start.bbs@.len() + 1) as usize), while_begin: Some(BasicBlock(start.bbs@.len() as usize)), while_end: Some(BasicBlock((start.bbs@.len() + 2) as usize)) });
            lemma_part_ok(*func_data, bctx, (*body)@, guard_bb, (start.bbs@.len() + 1) as nat, s_body, s_body_end, svm_b0, svm_b1, body_ctx);
        }
        Some(Ok(Context { in_block: end_bb, while_begin: ctx.while_begin, while_end: ctx.while_end }))
    }

    /// Builds a function definition and adds it to the program. Its name is
    /// bound to it in the current scope; in a new scope each parameter gets
    /// a slot in a new entry block, where its argument is stored; the body
    /// is built from there, up to the first statement after which the block
    /// where code goes on ends in a return, and a return is added to that
    /// block where it does not end in one.
    #[verifier::rlimit(100)]
    fn build_func(&mut self, prog: &mut Program, fd: &FuncDef) -> (r: Option<Result<(), ProgramBuilderError>>)
        requires
            old(prog).wf(),
            top_ok(old(self).symbol_value_map, *old(prog)),
        ensures
            final(self).name_generator.made() <= old(self).name_generator.made() + 1 + blocks_block(fd@.body, 0),
            final(self).ast == old(self).ast,
            final(prog).values@ == old(prog).values@,
            ({
                let sp = spec_build_func(names_of(old(self).symbol_value_map), fd@);
                &&& (sp is None ==> r is None)
                &&& (r is None ==> sp is None || exhausted(final(self).name_generator@))
                &&& (r matches Some(Err(_)) ==> sp matches Some((ok, _)) && !ok)
                &&& (r matches Some(Ok(_)) ==> sp matches Some((ok, ns)) && ok && ns == names_of(final(self).symbol_value_map))
            }),
            r matches Some(Ok(_)) ==> {
                &&& final(prog).wf()
                &&& top_ok(final(self).symbol_value_map, *final(prog))
                &&& final(prog).funcs@.len() == old(prog).funcs@.len() + 1
                &&& final(prog).funcs@.drop_last() == old(prog).funcs@
                &&& header_ok(final(prog).funcs@.last(), fd@.ident.name, param_types(fd@.fparams), fd@.return_type)
                &&& is_def(final(prog).funcs@.last())
                &&& params_stored(final(prog).funcs@.last(), param_types(fd@.fparams))
                &&& scoped_lookup(final(self).symbol_value_map.functions(), fd@.ident.name) matches Some(Function(x)) && x == old(prog).funcs@.len()
            },
    {
        let ghost ns0 = names_of(self.symbol_value_map);
        let ghost g = prog.values@.len();
        let ghost f1 = prog.funcs@.len() + 1;
        let ghost pn = param_names(fd@.fparams);
        let ghost bodyv = body_view(fd.body@);
        let mut name = String::from_str("@");
        name.append(fd.ident.name.as_str());
        proof {
            reveal_strlit("@");
            assert(name@ =~= seq!['@'] + fd.ident.name@);
        }
        let mut params_ty: Vec<IrType> = Vec::new();
        let mut i: usize = 0;
        while i < fd.fparams.len()
            invariant
                i <= fd.fparams@.len(),
                params_ty@.len() == i,
                forall|j: int| 0 <= j < i ==> (#[trigger] params_ty@[j])@ == spec_typemap(fd.fparams@[j].1@),
            decreases fd.fparams@.len() - i,
        {
            params_ty.push(typemap(&fd.fparams[i].1));
            i = i + 1;
        }
        let ret_ty = typemap(&fd.return_type);
        let mut func_data = FunctionData::new(name, params_ty, ret_ty);
        proof {
            assert(func_data.bbs@ =~= Seq::<Option<String>>::empty());
            lemma_names_from_empty(self.name_generator.issued());
        }
        let func = Function(prog.funcs.len());
        let ghost s0 = func_data;
        proof {
            assert(func_data.wf(g, f1));
            lemma_frame_refl(s0, BasicBlock(0));
        }
        let entry = match self.new_named_block("%entry", &mut func_data, Ghost(g), Ghost(f1), Ghost(s0), Ghost(BasicBlock(0))) {
            Some(b) => b,
            None => {
                return None;
            },
        };
        let ghost s1 = func_data;
        let ghost svm0 = self.symbol_value_map;
        proof {
            lemma_bindings_ok_grow(svm0, 0, g, (f1 - 1) as nat, 0, g, f1);
        }
        self.symbol_value_map.add_function(fd.ident.name.clone(), func);
        proof {
            lemma_names_add_function(svm0, self.symbol_value_map, fd.ident.name@, func, 0, g, f1);
        }
        let ghost svm1 = self.symbol_value_map;
        self.symbol_value_map = self.symbol_value_map.enter_scope();
        proof {
            lemma_names_enter(svm1, self.symbol_value_map, 0, g, f1);
            lemma_bindings_ok_grow(self.symbol_value_map, 0, g, f1, s1.values@.len(), g, f1);
            lemma_frame_refl(s1, entry);
        }
        let ghost entered = self.symbol_value_map;
        let ghost m1 = self.name_generator.made();
        let mut i: usize = 0;
        while i < fd.fparams.len()
            invariant
                names_from(func_data.bbs@, self.name_generator.issued()),
                self.ast == old(self).ast,
                self.name_generator.made() == m1,
                self.symbol_value_map.wf(),
                outer_kept(entered, self.symbol_value_map),
                entered.values().len() == 2,
                names_of(self.symbol_value_map).funcs == names_of(entered).funcs,
                bind_all(names_of(entered).vals, pn, 0) == bind_all(names_of(self.symbol_value_map).vals, pn, i as int),
                pn == param_names(fd@.fparams),
                bindings_ok(self.symbol_value_map, func_data.values@.len(), g, f1),
                s1.wf(g, f1),
                func_data.wf(g, f1),
                frame(s1, func_data, entry),
                s1.layout@.len() == 1,
                s1.layout@[0].0 == entry,
                entry == BasicBlock(0),
                func_data.in_layout(entry),
                func_data.params@.len() == fd.fparams@.len(),
                forall|j: int| 0 <= j < func_data.params@.len() ==> #[trigger] func_data.params@[j] == Value::Local(j as usize),
                func_data.values@.len() >= fd.fparams@.len(),
                i <= fd.fparams@.len(),
                i == 0 ==> func_data.insts(entry).len() == 0,
                i > 0 ==> last_ok(Last::Other, s1, func_data, entry, entry),
                func_data.insts(entry).len() == 2 * i,
                forall|k: int| #![trigger func_data.insts(entry)[2 * k]] 0 <= k < i ==> {
                    &&& func_data.insts(entry)[2 * k] is Local
                    &&& func_data.insts(entry)[2 * k]->Local_0 < func_data.values@.len()
                    &&& func_data.insts(entry)[2 * k + 1] is Local
                    &&& func_data.insts(entry)[2 * k + 1]->Local_0 < func_data.values@.len()
                    &&& func_data.values@[func_data.insts(entry)[2 * k]->Local_0 as int] matches ValueKind::Alloc(t) && t@ == spec_typemap(fd.fparams@[k].1@)
                    &&& func_data.values@[func_data.insts(entry)[2 * k + 1]->Local_0 as int] == ValueKind::Store(Value::Local(k as usize), func_data.insts(entry)[2 * k])
                },
            decreases fd.fparams@.len() - i,
        {
            let ghost before = func_data;
            let alloc = func_data.emit(ValueKind::Alloc(typemap(&fd.fparams[i].1)), entry, Ghost(g), Ghost(f1), Ghost(s1), Ghost(entry));
            let pv = func_data.params[i];
            let _st = func_data.emit(ValueKind::Store(pv, alloc), entry, Ghost(g), Ghost(f1), Ghost(s1), Ghost(entry));
            proof {
                let e0 = before.insts(entry);
                let e = func_data.insts(entry);
                assert(e == e0.push(alloc).push(_st));
                assert forall|k: int| #![trigger e[2 * k]] 0 <= k <= i implies {
                    &&& e[2 * k] is Local
                    &&& e[2 * k]->Local_0 < func_data.values@.len()
                    &&& e[2 * k + 1] is Local
                    &&& e[2 * k + 1]->Local_0 < func_data.values@.len()
                    &&& func_data.values@[e[2 * k]->Local_0 as int] matches ValueKind::Alloc(t) && t@ == spec_typemap(fd.fparams@[k].1@)
                    &&& func_data.values@[e[2 * k + 1]->Local_0 as int] == ValueKind::Store(Value::Local(k as usize), e[2 * k])
                } by {
                    if k < i {
                        assert(e[2 * k] == e0[2 * k]);
                        assert(e[2 * k + 1] == e0[2 * k + 1]);
                        assert(func_data.values@[e0[2 * k]->Local_0 as int] == before.values@[e0[2 * k]->Local_0 as int]);
                        assert(func_data.values@[e0[2 * k + 1]->Local_0 as int] == before.values@[e0[2 * k + 1]->Local_0 as int]);
                    }
                }
            }
            let ghost svm_i = self.symbol_value_map;
            proof {
                lemma_bindings_ok_mono(svm_i, before.values@.len(), func_data.values@.len(), g, f1);
            }
            self.symbol_value_map.add_value(fd.fparams[i].0.name.clone(), alloc);
            proof {
                lemma_names_add_value(svm_i, self.symbol_value_map, fd.fparams@[i as int].0.name@, alloc, func_data.values@.len(), g, f1);
                svm_i.lemma_wf();
                assert(outer_kept(svm_i, self.symbol_value_map));
                lemma_outer_kept_trans(entered, svm_i, self.symbol_value_map);
                assert(pn[i as int] == fd.fparams@[i as int].0.name@);
            }
            i = i + 1;
        }
        let ghost s2 = func_data;
        let ghost ns_p = names_of(self.symbol_value_map);
        let ghost acc0 = if fd.fparams@.len() == 0 { Last::Empty } else { Last::Other };
        proof {
            assert(names_of(entered) == names_enter(Names { vals: ns0.vals, funcs: bind(ns0.funcs, fd@.ident.name) }));
            assert(ns_p.vals == bind_all(names_of(entered).vals, pn, 0));
            assert(ns_p == (Names { vals: bind_all(names_of(entered).vals, param_names(fd@.fparams), 0), funcs: names_of(entered).funcs }));
            lemma_grows_trans(s0, s1, s2);
            assert(params_stored(s2, param_types(fd@.fparams)));
        }
        let mut bb = entry;
        let ghost mut acc = acc0;
        let mut done = false;
        let mut k: usize = 0;
        while k < fd.body.len() && !done
            invariant
                names_from(func_data.bbs@, self.name_generator.issued()),
                self.ast == old(self).ast,
                m1 <= old(self).name_generator.made() + 1,
                self.name_generator.made() + blocks_block(bodyv, k as int) <= m1 + blocks_block(bodyv, 0),
                self.symbol_value_map.wf(),
                outer_kept(entered, self.symbol_value_map),
                entered.values().len() == 2,
                bindings_ok(self.symbol_value_map, func_data.values@.len(), g, f1),
                func_data.wf(g, f1),
                grows(s0, func_data),
                s1.layout@.len() == 1,
                s1.layout@[0].0 == entry,
                grows(s1, func_data),
                grows(s2, func_data),
                params_stored(s2, param_types(fd@.fparams)),
                s2.wf(g, f1),
                s2.in_layout(entry),
                entry == BasicBlock(0),
                func_data.params@.len() == fd.fparams@.len(),
                func_data.in_layout(bb),
                !(acc is Keep),
                last_ok(acc, s2, func_data, entry, bb),
                k <= fd.body@.len(),
                bodyv == body_view(fd.body@),
                bodyv == fd@.body,
                ns0 == names_of(old(self).symbol_value_map),
                acc0 == (if fd@.fparams.len() == 0 { Last::Empty } else { Last::Other }),
                ns_p == (Names { vals: bind_all(names_enter(Names { vals: ns0.vals, funcs: bind(ns0.funcs, fd@.ident.name) }).vals, param_names(fd@.fparams), 0),
                    funcs: names_enter(Names { vals: ns0.vals, funcs: bind(ns0.funcs, fd@.ident.name) }).funcs }),
                !done ==> spec_build_body(ns_p, bodyv, 0, acc0) == spec_build_body(names_of(self.symbol_value_map), bodyv, k as int, acc),
                done ==> spec_build_body(ns_p, bodyv, 0, acc0) == Some((true, Last::Ret, names_of(self.symbol_value_map))) && acc is Ret,
            decreases fd.body@.len() - k,
        {
            let ghost before = func_data;
            let ghost ns_k = names_of(self.symbol_value_map);
            let ghost svm_k = self.symbol_value_map;
            let ctx = Context { in_block: bb, while_begin: None, while_end: None };
            let rs = self.build_stmt(&fd.body[k], &mut func_data, &ctx, Ghost(g), Ghost(f1));
            let c = match rs {
                None => {
                    return None;
                },
                Some(Err(e)) => {
                    return Some(Err(e));
                },
                Some(Ok(c)) => c,
            };
            proof {
                let sp = spec_build_stmt(ns_k, false, bodyv[k as int]);
                let t = sp->0;
                let l = t.1;
                lemma_last_ok_then(acc, l, s2, before, func_data, entry, bb, c.in_block, g, f1);
                acc = then_last(acc, l);
                lemma_outer_kept_trans(entered, svm_k, self.symbol_value_map);
                lemma_grows_trans(s1, before, func_data);
                lemma_grows_trans(s2, before, func_data);
                lemma_grows_trans(s0, before, func_data);
            }
            bb = c.in_block;
            let stop = match func_data.last_instr(bb) {
                Some(ki) => is_ret(ki),
                None => false,
            };
            if stop {
                done = true;
            }
            k = k + 1;
        }
        proof {
            if !done {
                assert(spec_build_body(names_of(self.symbol_value_map), bodyv, k as int, acc) == Some((true, acc, names_of(self.symbol_value_map))));
            }
        }
        let need_ret = match func_data.last_instr(bb) {
            None => true,
            Some(ki) => !is_ret(ki),
        };
        if need_ret {
            let ghost cur = func_data;
            proof {
                lemma_frame_refl(cur, bb);
                cur.lemma_insts_bounded(g, f1, bb);
            }
            let _ret = func_data.emit(ValueKind::Return(None), bb, Ghost(g), Ghost(f1), Ghost(cur), Ghost(bb));
            proof {
                lemma_grows_trans(s0, cur, func_data);
                lemma_grows_trans(s1, cur, func_data);
                lemma_grows_trans(s2, cur, func_data);
            }
        }
        proof {
            assert(func_data.in_layout(bb) && func_data.insts(bb).len() > 0
                && is_return(func_data.values@[func_data.insts(bb).last()->Local_0 as int]));
            lemma_params_stored_kept(s2, func_data, param_types(fd@.fparams));
            assert(func_data.layout@[0].0 == s1.layout@[0].0);
            lemma_names_from_distinct(func_data.bbs@, self.name_generator.issued());
        }
        let ghost inner = self.symbol_value_map;
        let parent = match self.symbol_value_map.exit_scope() {
            Ok(p) => p,
            Err(e) => {
                return Some(Err(ProgramBuilderError::SymbolValueMapError(e)));
            },
        };
        self.symbol_value_map = parent;
        proof {
            lemma_names_exit(inner, self.symbol_value_map, func_data.values@.len(), g, f1);
            let pv = self.symbol_value_map;
            assert forall|j: int, n: Seq<char>| 0 <= j < pv.values().len() && #[trigger] pv.values()[j].contains_key(n)
                implies value_ok(pv.values()[j][n], 0, g) by {
                assert(j == 0);
                assert(pv.values()[0] == inner.values()[0]);
                assert(inner.values()[0] == entered.values()[0]);
                assert(svm1.values()[0].contains_key(n));
            }
            assert forall|j: int, n: Seq<char>| 0 <= j < pv.functions().len() && #[trigger] pv.functions()[j].contains_key(n)
                implies pv.functions()[j][n].0 < f1 by {
                assert(j == 0);
                assert(pv.functions()[0] == inner.functions()[0]);
                assert(inner.functions()[0] == entered.functions()[0]);
                assert(svm1.functions()[0].contains_key(n));
            }
            let op = *old(prog);
            op.lemma_funcs_mono(g, f1);
            assert(pv.functions()[0] == svm1.functions()[0]) by {
                assert(pv.functions()[0] == inner.functions()[0]);
                assert(inner.functions()[0] == entered.functions()[0]);
            }
            assert(svm1.functions()[0].contains_key(fd@.ident.name));
            pv.lemma_wf();
            lemma_scoped_found(pv.functions(), fd@.ident.name, 0);
        }
        let _h = prog.new_func(func_data);
        proof {
            assert(prog.funcs@.drop_last() =~= old(prog).funcs@);
            assert forall|j: int| 0 <= j < prog.funcs@.len() implies (#[trigger] prog.funcs@[j]).wf(prog.values@.len(), prog.funcs@.len()) by {
                if j < prog.funcs@.len() - 1 {
                    assert(prog.funcs@[j] == old(prog).funcs@[j]);
                }
            }
        }
        Some(Ok(()))
    }

    /// The compile-time value of the initialiser of a global variable; `None`
    /// where the builder stops the program: on anything but literals and
    /// constants that hold a value, and where an operation overflows or
    /// divides by zero.
    fn calc_global_expr_value(&self, expr: &Expression) -> (r: Option<Result<i32, ProgramBuilderError>>)
        ensures
            r == match spec_fold(expr@) {
                Some(v) => Some(Ok::<i32, ProgramBuilderError>(v)),
                None => None::<Result<i32, ProgramBuilderError>>,
            },
        decreases expr,
    {
        match expr {
            Expression::IntLit(i) => Some(Ok(*i)),
            Expression::Ident(id) => match &id.resolve_status {
                ResolveStatus::Resolved(info) => {
                    if info.is_const_val() {
                        match info.const_val_of() {
                            Ok(v) => Some(Ok(v)),
                            Err(_) => None,
                        }
                    } else {
                        None
                    }
                },
                ResolveStatus::Unresolved => None,
            },
            Expression::Unary(op, b) => match self.calc_global_expr_value(b) {
                Some(Ok(v)) => match eval_unary(*op, v) {
                    Some(x) => Some(Ok(x)),
                    None => None,
                },
                _ => None,
            },
            Expression::Binary(l, op, r) => {
                let lhs = self.calc_global_expr_value(l);
                let rhs = self.calc_global_expr_value(r);
                match (lhs, rhs) {
                    (Some(Ok(a)), Some(Ok(b))) => match eval_binary(*op, a, b) {
                        Some(x) => Some(Ok(x)),
                        None => None,
                    },
                    _ => None,
                }
            },
            Expression::Call(_, _) => None,
        }
    }

    /// Builds a global variable declaration into the program: for each
    /// entry, its initial value (the compile-time value of its initialiser,
    /// or a zero of its type) and a global allocation of it, named after
    /// the variable and bound to its name in the current scope.
    #[verifier::rlimit(100)]
    #[verifier::spinoff_prover]
    fn build_global_var(&mut self, prog: &mut Program, v: &Vec<(Type, Identifier, Option<Expression>)>) -> (r: Option<Result<(), ProgramBuilderError>>)
        requires
            old(prog).wf(),
            top_ok(old(self).symbol_value_map, *old(prog)),
        ensures
            final(self).ast == old(self).ast,
            final(self).name_generator == old(self).name_generator,
            (spec_build_globals(names_of(old(self).symbol_value_map), var_decl_view(v@), 0) is None) == (r is None),
            !(r matches Some(Err(_))),
            r matches Some(Ok(_)) ==> {
                &&& spec_build_globals(names_of(old(self).symbol_value_map), var_decl_view(v@), 0) == Some(names_of(final(self).symbol_value_map))
                &&& final(prog).wf()
                &&& top_ok(final(self).symbol_value_map, *final(prog))
                &&& globals_added(*old(prog), *final(prog), var_decl_view(v@))
                &&& globals_bound(final(self).symbol_value_map, old(prog).values@.len(), var_decl_view(v@))
            },
    {
        let ghost ns0 = names_of(self.symbol_value_map);
        let ghost g0 = prog.values@.len();
        let ghost vv = var_decl_view(v@);
        let mut i: usize = 0;
        while i < v.len()
            invariant
                self.ast == old(self).ast,
                self.name_generator == old(self).name_generator,
                prog.wf(),
                top_ok(self.symbol_value_map, *prog),
                prog.funcs@ == old(prog).funcs@,
                g0 == old(prog).values@.len(),
                prog.values@.len() == g0 + 2 * i,
                forall|j: int| 0 <= j < g0 ==> #[trigger] prog.values@[j] == old(prog).values@[j],
                forall|k: int| 0 <= k < i ==> #[trigger] global_ok(prog.values@[g0 + 2 * k], prog.values@[g0 + 2 * k + 1], vv[k], (g0 + 2 * k) as nat),
                i <= v@.len(),
                vv == var_decl_view(v@),
                ns0 == names_of(old(self).symbol_value_map),
                spec_build_globals(ns0, vv, 0) == spec_build_globals(names_of(self.symbol_value_map), vv, i as int),
                forall|k: int| 0 <= k < i && (forall|j: int| k < j < i ==> vv[j].1.name != vv[k].1.name)
                    ==> (self.symbol_value_map.values()[0].contains_key((#[trigger] vv[k]).1.name)
                        && (self.symbol_value_map.values()[0][vv[k].1.name] matches Value::Global(x) && x == g0 + 2 * k + 1)),
            decreases v@.len() - i,
        {
            let ghost p0 = *prog;
            let kind = match &v[i].2 {
                Some(e) => match self.calc_global_expr_value(e) {
                    Some(Ok(c)) => ValueKind::Integer(c),
                    Some(Err(err)) => {
                        return Some(Err(err));
                    },
                    None => {
                        return None;
                    },
                },
                None => ValueKind::ZeroInit(typemap(&v[i].0)),
            };
            let init = prog.new_value(kind);
            let alloc = prog.new_value(ValueKind::GlobalAlloc(init));
            let mut vname = String::from_str("%");
            vname.append(v[i].1.name.as_str());
            proof {
                reveal_strlit("%");
                assert(vname@ =~= seq!['%'] + v@[i as int].1.name@);
            }
            prog.set_value_name(alloc, Some(vname));
            let ghost svm0 = self.symbol_value_map;
            proof {
                lemma_bindings_ok_grow(svm0, 0, p0.values@.len(), p0.funcs@.len(), 0, prog.values@.len(), prog.funcs@.len());
            }
            let ghost before_add = self.symbol_value_map;
            self.symbol_value_map.add_value(v[i].1.name.clone(), alloc);
            proof {
                assert(vv[i as int].1.name == v@[i as int].1.name@);
                before_add.lemma_wf();
                assert(self.symbol_value_map.values()[0] == before_add.values()[0].insert(vv[i as int].1.name, alloc));
                assert forall|k: int| 0 <= k < i + 1 && (forall|j: int| k < j < i + 1 ==> vv[j].1.name != vv[k].1.name)
                    implies (self.symbol_value_map.values()[0].contains_key((#[trigger] vv[k]).1.name)
                        && (self.symbol_value_map.values()[0][vv[k].1.name] matches Value::Global(x) && x == g0 + 2 * k + 1)) by {
                    if k < i {
                        assert(vv[i as int].1.name != vv[k].1.name);
                        assert(before_add.values()[0].contains_key(vv[k].1.name));
                    }
                }
                lemma_names_add_value(svm0, self.symbol_value_map, v@[i as int].1.name@, alloc, 0, prog.values@.len(), prog.funcs@.len());
                p0.lemma_funcs_mono(prog.values@.len(), prog.funcs@.len());
                assert forall|j: int| 0 <= j < prog.values@.len() implies kind_ok((#[trigger] prog.values@[j]).0, 0, j as nat, 0, 0) by {
                    if j < p0.values@.len() {
                        assert(prog.values@[j] == p0.values@[j]);
                    }
                }
                assert forall|j: int| 0 <= j < g0 implies #[trigger] prog.values@[j] == old(prog).values@[j] by {
                    assert(prog.values@[j] == p0.values@[j]);
                }
                assert forall|k: int| 0 <= k <= i implies #[trigger] global_ok(prog.values@[g0 + 2 * k], prog.values@[g0 + 2 * k + 1], vv[k], (g0 + 2 * k) as nat) by {
                    if k < i {
                        assert(prog.values@[g0 + 2 * k] == p0.values@[g0 + 2 * k]);
                        assert(prog.values@[g0 + 2 * k + 1] == p0.values@[g0 + 2 * k + 1]);
                    }
                }
            }
            i = i + 1;
        }
        proof {
            let svm = self.symbol_value_map;
            assert forall|k: int| 0 <= k < vv.len() && (forall|j: int| k < j < vv.len() ==> vv[j].1.name != vv[k].1.name)
                implies (scoped_lookup(svm.values(), (#[trigger] vv[k]).1.name) matches Some(Value::Global(x)) && x == g0 + 2 * k + 1) by {
                lemma_scoped_found(svm.values(), vv[k].1.name, 0);
            }
        }
        Some(Ok(()))
    }

    /// Builds a top-level item into the program.
    fn build_item(&mut self, prog: &mut Program, item: &Item) -> (r: Option<Result<(), ProgramBuilderError>>)
        requires
            old(prog).wf(),
            top_ok(old(self).symbol_value_map, *old(prog)),
        ensures
            final(self).name_generator.made() <= old(self).name_generator.made() + blocks_item(item@),
            final(self).ast == old(self).ast,
            ({
                let sp = spec_build_item(names_of(old(self).symbol_value_map), item@);
                &&& (sp is None ==> r is None)
                &&& (r is None ==> sp is None || exhausted(final(self).name_generator@))
                &&& (r matches Some(Err(_)) ==> sp matches Some((ok, _)) && !ok)
                &&& (r matches Some(Ok(_)) ==> sp matches Some((ok, ns)) && ok && ns == names_of(final(self).symbol_value_map))
            }),
            r matches Some(Ok(_)) ==> {
                &&& final(prog).wf()
                &&& top_ok(final(self).symbol_value_map, *final(prog))
                &&& item_effect(*old(prog), *final(prog), item@)
                &&& item_bound(final(self).symbol_value_map, old(prog).funcs@.len(), old(prog).values@.len(), item@)
            },
    {
        match item {
            Item::FuncDef(fd) => self.build_func(prog, fd),
            Item::GlobalVar(stmt) => match stmt {
                Statement::VarDecl(v) => self.build_global_var(prog, v),
                Statement::ConstDecl(_) => Some(Ok(())),
                _ => None,
            },
        }
    }

    /// A builder of the given compile unit, which has built nothing yet.
    pub fn new(ast: CompileUnit) -> (r: ProgramBuilder)
        ensures
            r.ast_view() == ast@,
            r.is_fresh(),
            r.names_made() == 0,
    {
        ProgramBuilder { ast, symbol_value_map: SymbolValueMap::new(), name_generator: NameGenerator::new() }
    }

    /// The compile unit that the builder builds.
    pub closed spec fn ast_view(&self) -> Seq<ItemView> {
        self.ast@
    }

    /// The builder has bound no name yet.
    pub closed spec fn is_fresh(&self) -> bool {
        &&& self.symbol_value_map.wf()
        &&& self.symbol_value_map.values() == seq![Map::<Seq<char>, Value>::empty()]
        &&& self.symbol_value_map.functions() == seq![Map::<Seq<char>, Function>::empty()]
    }

    /// How many block names the builder made.
    pub closed spec fn names_made(&self) -> nat {
        self.name_generator.made()
    }

    /// Some block name was used as often as its count can hold.
    pub closed spec fn names_exhausted(&self) -> bool {
        exhausted(self.name_generator@)
    }

    /// Declares the runtime library functions in the program, in order, and
    /// binds their names in the current scope.
    #[verifier::spinoff_prover]
    fn declare_builtins(&mut self, prog: &mut Program)
        requires
            old(self).is_fresh(),
            old(prog).wf(),
            old(prog).values@.len() == 0,
            old(prog).funcs@.len() == 0,
        ensures
            final(self).ast == old(self).ast,
            final(self).name_generator == old(self).name_generator,
            final(prog).wf(),
            final(prog).values@.len() == 0,
            final(prog).funcs@.len() == spec_builtin_functions().len(),
            forall|k: int| 0 <= k < spec_builtin_functions().len() ==> #[trigger] is_decl(final(prog).funcs@[k]) && header_ok(final(prog).funcs@[k], spec_builtin_functions()[k].0,
                spec_builtin_functions()[k].1.ty->Function_0, *spec_builtin_functions()[k].1.ty->Function_1),
            top_ok(final(self).symbol_value_map, *final(prog)),
            names_of(final(self).symbol_value_map) == (Names { vals: seq![Set::<Seq<char>>::empty()], funcs: bind_all(seq![Set::<Seq<char>>::empty()], builtin_names(), 0) }),
    {
        let builtins = get_builtin_functions();
        let ghost bn = builtin_names();
        let ghost e0 = seq![Set::<Seq<char>>::empty()];
        proof {
            lemma_builtins_are_functions();
            assert(names_of(self.symbol_value_map).vals =~= e0);
            assert(names_of(self.symbol_value_map).funcs =~= e0);
        }
        let mut i: usize = 0;
        while i < builtins.len()
            invariant
                self.ast == old(self).ast,
                self.name_generator == old(self).name_generator,
                entries_view(builtins@) == spec_builtin_functions(),
                forall|k: int| 0 <= k < spec_builtin_functions().len() ==> (#[trigger] spec_builtin_functions()[k]).1.ty is Function,
                bn == builtin_names(),
                e0 == seq![Set::<Seq<char>>::empty()],
                i <= builtins@.len(),
                prog.wf(),
                prog.values@.len() == 0,
                prog.funcs@.len() == i,
                forall|k: int| 0 <= k < i ==> #[trigger] is_decl(prog.funcs@[k]) && header_ok(prog.funcs@[k], spec_builtin_functions()[k].0,
                    spec_builtin_functions()[k].1.ty->Function_0, *spec_builtin_functions()[k].1.ty->Function_1),
                self.symbol_value_map.wf(),
                self.symbol_value_map.values().len() == 1,
                bindings_ok(self.symbol_value_map, 0, 0, prog.funcs@.len()),
                names_of(self.symbol_value_map).vals == e0,
                bind_all(e0, bn, 0) == bind_all(names_of(self.symbol_value_map).funcs, bn, i as int),
            decreases builtins@.len() - i,
        {
            let ghost p0 = *prog;
            let ghost spec_ty = spec_builtin_functions()[i as int].1.ty;
            assert(builtins@[i as int].1@.ty == spec_ty);
            let ty = typemap(&builtins[i].1.ty);
            let ghost tyv = ty@;
            let (ps, ret) = match ty {
                IrType::Function(ps, ret) => (ps, ret),
                _ => {
                    proof {
                        assert(false);
                    }
                    return;
                },
            };
            let mut nm = String::from_str("@");
            nm.append(builtins[i].0.as_str());
            proof {
                reveal_strlit("@");
                assert(nm@ =~= seq!['@'] + spec_builtin_functions()[i as int].0);
                lemma_ir_type_seq_view(ps@);
                lemma_spec_typemap_seq(spec_ty->Function_0);
                assert(tyv == IrTypeView::Function(ir_type_seq_view(ps@), Box::new((*ret)@)));
                assert(ir_type_seq_view(ps@) == spec_typemap_seq(spec_ty->Function_0));
                assert forall|m: int| 0 <= m < ps@.len() implies (#[trigger] ps@[m])@ == spec_typemap(spec_ty->Function_0[m]) by {
                    assert(ir_type_seq_view(ps@)[m] == ps@[m]@);
                }
            }
            let func = prog.new_func(FunctionData::new_decl(nm, ps, *ret));
            let ghost svm0 = self.symbol_value_map;
            proof {
                lemma_bindings_ok_grow(svm0, 0, 0, p0.funcs@.len(), 0, 0, prog.funcs@.len());
            }
            self.symbol_value_map.add_function(builtins[i].0.clone(), func);
            proof {
                lemma_names_add_function(svm0, self.symbol_value_map, builtins@[i as int].0@, func, 0, 0, prog.funcs@.len());
                assert(bn[i as int] == builtins@[i as int].0@);
                p0.lemma_funcs_mono(0, prog.funcs@.len());
                assert forall|k: int| 0 <= k < prog.funcs@.len() implies (#[trigger] prog.funcs@[k]).wf(prog.values@.len(), prog.funcs@.len()) by {
                    if k < p0.funcs@.len() {
                        assert(prog.funcs@[k] == p0.funcs@[k]);
                    }
                }
                assert forall|k: int| 0 <= k <= i implies #[trigger] is_decl(prog.funcs@[k]) && header_ok(prog.funcs@[k], spec_builtin_functions()[k].0,
                    spec_builtin_functions()[k].1.ty->Function_0, *spec_builtin_functions()[k].1.ty->Function_1) by {
                    if k < i {
                        assert(prog.funcs@[k] == p0.funcs@[k]);
                    }
                }
            }
            i = i + 1;
        }
        proof {
            assert(bind_all(names_of(self.symbol_value_map).funcs, bn, i as int) == names_of(self.symbol_value_map).funcs);
        }
    }

    /// Builds the Koopa IR program of the compile unit: the runtime library
    /// functions are declared and bound first, then each item is built in
    /// order. `None` where the builder stops the program (see
    /// [`spec_build_compunit`]) or where a block name was used as often as
    /// its count can hold.
    pub fn try_build_compunit(&mut self) -> (r: Option<Result<Program, ProgramBuilderError>>)
        requires
            old(self).is_fresh(),
        ensures
            final(self).names_made() <= old(self).names_made() + blocks_items(old(self).ast_view(), 0),
            final(self).ast_view() == old(self).ast_view(),
            ({
                let sp = spec_build_compunit(old(self).ast_view());
                &&& (sp is None ==> r is None)
                &&& (r is None ==> sp is None || final(self).names_exhausted())
                &&& (r matches Some(Err(_)) ==> sp == Some(false))
                &&& (r matches Some(Ok(prog)) ==> sp == Some(true) && program_ok(prog, old(self).ast_view()))
            }),
    {
        let mut prog = Program::new();
        self.declare_builtins(&mut prog);
        let ghost e0 = seq![Set::<Seq<char>>::empty()];
        let ghost bn = builtin_names();
        let mut ast = CompileUnit { items: Vec::new() };
        std::mem::swap(&mut ast, &mut self.ast);
        let ghost iv = ast@;
        proof {
            assert(iv.take(0) =~= Seq::<ItemView>::empty());
            assert(defined_funcs(iv.take(0)).len() == 0);
            assert(global_entries(iv.take(0)).len() == 0);
            assert(program_ok(prog, iv.take(0)));
            assert(names_of(self.symbol_value_map) == (Names { vals: e0, funcs: bind_all(e0, bn, 0) }));
        }
        let mut j: usize = 0;
        while j < ast.items.len()
            invariant
                iv == ast@,
                iv == old(self).ast@,
                self.ast@ == Seq::<ItemView>::empty(),
                prog.wf(),
                top_ok(self.symbol_value_map, prog),
                j <= ast.items@.len(),
                spec_build_compunit(iv) == spec_build_items(names_of(self.symbol_value_map), iv, j as int),
                self.names_made() + blocks_items(iv, j as int) <= old(self).names_made() + blocks_items(iv, 0),
                program_ok(prog, iv.take(j as int)),
            decreases ast.items@.len() - j,
        {
            let ghost p0 = prog;
            let rj = self.build_item(&mut prog, &ast.items[j]);
            match rj {
                None => {
                    std::mem::swap(&mut ast, &mut self.ast);
                    return None;
                },
                Some(Err(e)) => {
                    std::mem::swap(&mut ast, &mut self.ast);
                    return Some(Err(e));
                },
                Some(Ok(())) => {},
            }
            proof {
                lemma_program_ok_step(p0, prog, iv, j as int);
            }
            j = j + 1;
        }
        std::mem::swap(&mut ast, &mut self.ast);
        proof {
            assert(iv.take(j as int) =~= iv);
        }
        Some(Ok(prog))
    }

    /// Builds the Koopa IR program of the compile unit: the runtime library
    /// functions are declared first, then each item is built in order (see
    /// [`spec_build_compunit`]). The unit must be one that the builder builds
    /// without stopping, with room in the counts of block names for every
    /// block it may make.
    pub fn build_compunit(&mut self) -> (r: Result<Program, ProgramBuilderError>)
        requires
            old(self).is_fresh(),
            spec_build_compunit(old(self).ast_view()) is Some,
            old(self).names_made() + blocks_items(old(self).ast_view(), 0) <= usize::MAX,
        ensures
            final(self).ast_view() == old(self).ast_view(),
            r is Ok <==> spec_build_compunit(old(self).ast_view()) == Some(true),
            r matches Ok(prog) ==> program_ok(prog, old(self).ast_view()),
    {
        match self.try_build_compunit() {
            Some(res) => res,
            None => {
                proof {
                    use_type_invariant(&self.name_generator);
                    self.name_generator.lemma_exhausted();
                }
                Err(ProgramBuilderError::SymbolValueMapError(SymbolValueMapError::NoParentScope))
            },
        }
    }

    /// Makes the three blocks of a short-circuit evaluation (the block that
    /// stores its short-circuit value, the block that evaluates its right
    /// operand, the block where the two meet) and a slot for its result at
    /// the end of the current block; `None` where a name could not be
    /// numbered once more.
    #[verifier::rlimit(100)]
    #[verifier::spinoff_prover]
    fn open_short_circuit(&mut self, func_data: &mut FunctionData, ctx: &Context, Ghost(g): Ghost<nat>, Ghost(f): Ghost<nat>) -> (r: Option<(BasicBlock, BasicBlock, BasicBlock, Value)>)
        requires
            names_from(old(func_data).bbs@, old(self).name_generator.issued()),
            old(func_data).wf(g, f),
            ctx_ok(*ctx, *old(func_data)),
        ensures
            names_from(final(func_data).bbs@, final(self).name_generator.issued()),
            final(self).name_generator.made() <= old(self).name_generator.made() + 3,
            final(self).symbol_value_map == old(self).symbol_value_map,
            final(self).ast == old(self).ast,
            final(func_data).wf(g, f),
            frame(*old(func_data), *final(func_data), ctx.in_block),
            ctx_ok(*ctx, *final(func_data)),
            ctx.in_block.0 < old(func_data).bbs@.len(),
            r is None ==> exhausted(final(self).name_generator@),
            r matches Some((sb, eb, mb, p)) ==> {
                let n = old(func_data).bbs@.len();
                let q = old(func_data).layout@.len() as int;
                &&& sb == BasicBlock(n as usize)
                &&& eb == BasicBlock((n + 1) as usize)
                &&& mb == BasicBlock((n + 2) as usize)
                &&& final(func_data).bbs@.len() == n + 3
                &&& final(func_data).layout@.len() == q + 3
                &&& final(func_data).layout@[q].0 == sb
                &&& final(func_data).layout@[q + 1].0 == eb
                &&& final(func_data).layout@[q + 2].0 == mb
                &&& final(func_data).layout@[q].1@.len() == 0
                &&& final(func_data).layout@[q + 1].1@.len() == 0
                &&& final(func_data).layout@[q + 2].1@.len() == 0
                &&& final(func_data).in_layout(sb)
                &&& final(func_data).in_layout(eb)
                &&& final(func_data).in_layout(mb)
                &&& p is Local
                &&& p->Local_0 == old(func_data).values@.len()
                &&& final(func_data).values@ == old(func_data).values@.push(ValueKind::Alloc(IrType::I32))
                &&& final(func_data).insts(ctx.in_block) == old(func_data).insts(ctx.in_block).push(p)
            },
    {
        let ghost start = *func_data;
        proof {
            lemma_frame_refl(start, ctx.in_block);
        }
        let ghost pscb = func_data.layout@.len() as int;
        let scb = match self.new_named_block("@short_circuit_block", func_data, Ghost(g), Ghost(f), Ghost(start), Ghost(ctx.in_block)) {
            Some(b) => b,
            None => {
                return None;
            },
        };
        let erb = match self.new_named_block("@eval_rhs_block", func_data, Ghost(g), Ghost(f), Ghost(start), Ghost(ctx.in_block)) {
            Some(b) => b,
            None => {
                return None;
            },
        };
        assert(func_data.layout@[pscb].0 == scb);
        let scm = match self.new_named_block("@short_circuit_merge", func_data, Ghost(g), Ghost(f), Ghost(start), Ghost(ctx.in_block)) {
            Some(b) => b,
            None => {
                return None;
            },
        };
        let ghost s3 = *func_data;
        assert(s3.layout@[pscb].0 == scb);
        assert(s3.layout@[pscb + 1].0 == erb);
        assert(s3.layout@[pscb + 2].0 == scm);
        assert(ctx.in_block.0 < start.bbs@.len()) by {
            let q = choose|q: int| 0 <= q < start.layout@.len() && start.layout@[q].0 == ctx.in_block;
            assert(start.layout@[q].0.0 < start.bbs@.len());
        }
        assert(s3.insts(ctx.in_block) == start.insts(ctx.in_block));
        let final_result = func_data.emit(ValueKind::Alloc(crate::ir::program::IrType::I32), ctx.in_block, Ghost(g), Ghost(f), Ghost(start), Ghost(ctx.in_block));
        proof {
            s3.lemma_layout_pos(pscb);
            s3.lemma_layout_pos(pscb + 1);
            s3.lemma_layout_pos(pscb + 2);
        }
        Some((scb, erb, scm, final_result))
    }

    /// Builds `&&` or `||` with short-circuit evaluation: a slot for the
    /// result, the left operand, a branch on it to a block that stores the
    /// short-circuit value or to a block that evaluates the right operand
    /// and stores it, both jumping to a merge block where code goes on.
    #[verifier::rlimit(100)]
    fn handle_short_circuit_eval(&mut self, expr: &Expression, func_data: &mut FunctionData, ctx: &Context, Ghost(g): Ghost<nat>, Ghost(f): Ghost<nat>) -> (r: Option<Result<(Value, Context), ProgramBuilderError>>)
        requires
            names_from(old(func_data).bbs@, old(self).name_generator.issued()),
            expr matches Expression::Binary(_, op, _) && (op == BinaryOp::LogicalAnd || op == BinaryOp::LogicalOr),
            old(self).symbol_value_map.wf(),
            old(func_data).wf(g, f),
            bindings_ok(old(self).symbol_value_map, old(func_data).values@.len(), g, f),
            ctx_ok(*ctx, *old(func_data)),
        ensures
            names_from(final(func_data).bbs@, final(self).name_generator.issued()),
            r matches Some(Ok((v, _))) ==> v is Local && v->Local_0 < final(func_data).values@.len() && final(func_data).values@[v->Local_0 as int] == ValueKind::Alloc(IrType::I32),
            final(self).name_generator.made() <= old(self).name_generator.made() + blocks_expr(expr@),
            final(self).symbol_value_map == old(self).symbol_value_map,
            final(self).ast == old(self).ast,
            final(func_data).wf(g, f),
            frame(*old(func_data), *final(func_data), ctx.in_block),
            ({
                let sp = spec_build_expr(names_of(old(self).symbol_value_map), expr@);
                &&& (sp is None ==> r is None)
                &&& (r is None ==> sp is None || exhausted(final(self).name_generator@))
                &&& (r matches Some(Err(_)) ==> sp matches Some((ok, _)) && !ok)
                &&& (r matches Some(Ok((v, c))) ==> sp matches Some((ok, _)) && ok && expr_result_ok(v, c, Last::Empty, *old(func_data), *final(func_data), *ctx))
            }),
            r matches Some(Ok((v, c))) ==> (expr@ matches ExprView::Binary(l, op, rr)
                && short_circuit_ok(*old(func_data), *final(func_data), old(self).symbol_value_map, v, ctx.in_block, c, *l, op, *rr)),
        decreases expr, 0int,
    {
        let ghost start = *func_data;
        proof {
            lemma_frame_refl(start, ctx.in_block);
        }
        let (lhs, binop, rhs) = match expr {
            Expression::Binary(l, op, r) => (l, op, r),
            _ => {
                proof {
                    assert(false);
                }
                return None;
            },
        };
        let ghost pscb = func_data.layout@.len() as int;
        let (scb, erb, scm, final_result) = match self.open_short_circuit(func_data, ctx, Ghost(g), Ghost(f)) {
            Some(t) => t,
            None => {
                return None;
            },
        };
        let ghost s0 = *func_data;
        assert(func_data.values@[final_result->Local_0 as int] == ValueKind::Alloc(IrType::I32));
        assert(s0.layout@[pscb].0 == scb);
        assert(s0.layout@[pscb + 1].0 == erb);
        assert(s0.layout@[pscb + 2].0 == scm);
        let lctx = Context { in_block: ctx.in_block, while_begin: ctx.while_begin, while_end: ctx.while_end };
        let (lhs_val, lhs_ctx) = match self.build_expr(lhs, func_data, &lctx, Ghost(g), Ghost(f)) {
            None => {
                return None;
            },
            Some(Err(e)) => {
                return Some(Err(e));
            },
            Some(Ok(p)) => p,
        };
        let ghost s1 = *func_data;
        assert(func_data.values@[final_result->Local_0 as int] == ValueKind::Alloc(IrType::I32));
        proof {
            lemma_frame_trans(start, s0, s1, ctx.in_block);
            assert(s1.layout@[pscb].0 == scb);
            assert(s1.layout@[pscb + 1].0 == erb);
            assert(s1.layout@[pscb + 2].0 == scm);
        }
        assert(s1.insts(scb).len() == 0) by {
            assert(s0.insts(scb).len() == 0);
            lemma_frame_insts(s0, s1, ctx.in_block, scb);
        }
        assert(lhs_ctx.in_block != scb && lhs_ctx.in_block != erb);
        let is_or = match binop {
            BinaryOp::LogicalOr => true,
            _ => false,
        };
        let ghost nv = s1.values@.len();
        let jump_to_merge = emit_short_circuit_branch(func_data, is_or, lhs_val, lhs_ctx.in_block, scb, erb, scm, final_result, Ghost(g), Ghost(f), Ghost(start), Ghost(ctx.in_block));
        let ghost br = ValueKind::Branch(lhs_val, if is_or { scb } else { erb }, if is_or { erb } else { scb });
        let ghost _st = Value::Local((nv + 2) as usize);
        let ghost result = Value::Local((nv + 1) as usize);
        let ghost s2 = *func_data;
        assert(func_data.values@[final_result->Local_0 as int] == ValueKind::Alloc(IrType::I32));
        assert(s2.layout@[pscb + 1].0 == erb);
        assert(s2.layout@[pscb + 2].0 == scm);
        let rctx0 = Context { in_block: erb, while_begin: lhs_ctx.while_begin, while_end: lhs_ctx.while_end };
        let (rhs_val, rhs_ctx) = match self.build_expr(rhs, func_data, &rctx0, Ghost(g), Ghost(f)) {
            None => {
                return None;
            },
            Some(Err(e)) => {
                return Some(Err(e));
            },
            Some(Ok(p)) => p,
        };
        let ghost s3 = *func_data;
        assert(func_data.values@[final_result->Local_0 as int] == ValueKind::Alloc(IrType::I32));
        proof {
            lemma_frame_new_block(start, s2, s3, ctx.in_block, erb);
            assert(s3.layout@[pscb + 2].0 == scm);
        }
        assert(rhs_ctx.in_block != scm);
        let _w = store_truth_and_jump(func_data, rhs_ctx.in_block, rhs_val, final_result, scm, Ghost(g), Ghost(f), Ghost(start), Ghost(ctx.in_block));
        assert(func_data.values@[final_result->Local_0 as int] == ValueKind::Alloc(IrType::I32));
        proof {
            assert(func_data.layout@[pscb + 2].0 == scm);
            assert(func_data.layout@[pscb + 2].1@.len() == 0);
            func_data.lemma_layout_pos(pscb + 2);
        }
        let ghost fin = *func_data;
        let ghost rb = rhs_ctx.in_block;
        assert(short_circuit_ok(start, fin, self.symbol_value_map, final_result, ctx.in_block, Context { in_block: scm, while_begin: rhs_ctx.while_begin, while_end: rhs_ctx.while_end },
            lhs@, *binop, rhs@)) by {
            let lb = lhs_ctx.in_block;
            lemma_grows_trans(s0, s1, s2);
            lemma_grows_trans(s0, s2, s3);
            lemma_grows_trans(s0, s3, fin);
            lemma_grows_in_layout(s0, s1, scb);
            assert(s2.in_layout(scb));
            assert(s2.in_layout(lb));
            lemma_grows_in_layout(s2, s3, lb);
            assert(fin.in_layout(lb));
            assert(fin.in_layout(rb));
            if lb.0 >= s2.bbs@.len() {
                lemma_not_laid_out(s2, lb);
            }
            assert(values_kept(s1, s2));
            assert(values_kept(s2, s3));
            assert(values_kept(s3, fin));
            lemma_short_circuit_final(start, s0, s1, s2, s3, fin, self.symbol_value_map, final_result, ctx.in_block,
                Context { in_block: scm, while_begin: rhs_ctx.while_begin, while_end: rhs_ctx.while_end },
                lhs@, *binop, rhs@, lb, lhs_val, rb, rhs_val, jump_to_merge);
        }
        assert(expr@ == ExprView::Binary(Box::new(lhs@), *binop, Box::new(rhs@)));
        Some(Ok((final_result, Context { in_block: scm, while_begin: rhs_ctx.while_begin, while_end: rhs_ctx.while_end })))
    }
}


/// A name bound in the current scope is found bound to what it was bound
/// to last, and binding it finds no other name differently.
pub proof fn law_scoped_find_after_add<T>(scopes: Seq<Map<Seq<char>, T>>, name: Seq<char>, v: T, other: Seq<char>)
    requires
        scopes.len() >= 1,
    ensures
        scoped_lookup(scopes.update(scopes.len() - 1, scopes.last().insert(name, v)), name) == Some(v),
        other != name ==> scoped_lookup(scopes.update(scopes.len() - 1, scopes.last().insert(name, v)), other) == scoped_lookup(scopes, other),
{
    assert(scopes.update(scopes.len() - 1, scopes.last().insert(name, v)).drop_last() =~= scopes.drop_last());
}

/// Leaving a scope just entered gives back the scopes as they were, and
/// in the new scope every name is found as outside it.
pub proof fn law_scoped_exit_after_enter<T>(scopes: Seq<Map<Seq<char>, T>>, name: Seq<char>)
    ensures
        scopes.push(Map::empty()).drop_last() == scopes,
        scoped_lookup(scopes.push(Map::empty()), name) == scoped_lookup(scopes, name),
{
    assert(scopes.push(Map::empty()).drop_last() =~= scopes);
}

/// The scopes after binding each of `adds`, in order, in the current scope.
pub open spec fn scoped_add_all<T>(scopes: Seq<Map<Seq<char>, T>>, adds: Seq<(Seq<char>, T)>) -> Seq<Map<Seq<char>, T>>
    decreases adds.len(),
{
    if adds.len() == 0 {
        scopes
    } else {
        let s = scoped_add_all(scopes, adds.drop_last());
        s.update(s.len() - 1, s.last().insert(adds.last().0, adds.last().1))
    }
}

/// Entering a scope, binding any names in it and leaving it gives back the
/// scopes as they were, and every name is found as before.
pub proof fn law_scoped_exit_after_adds<T>(scopes: Seq<Map<Seq<char>, T>>, adds: Seq<(Seq<char>, T)>, name: Seq<char>)
    ensures
        scoped_add_all(scopes.push(Map::empty()), adds).len() == scopes.len() + 1,
        scoped_add_all(scopes.push(Map::empty()), adds).drop_last() == scopes,
        scoped_lookup(scoped_add_all(scopes.push(Map::empty()), adds).drop_last(), name) == scoped_lookup(scopes, name),
    decreases adds.len(),
{
    if adds.len() == 0 {
        assert(scopes.push(Map::empty()).drop_last() =~= scopes);
    } else {
        law_scoped_exit_after_adds(scopes, adds.drop_last(), name);
        let x = scoped_add_all(scopes.push(Map::empty()), adds.drop_last());
        assert(x.update(x.len() - 1, x.last().insert(adds.last().0, adds.last().1)).drop_last() =~= x.drop_last());
    }
}

/// No decimal rendering is empty.
proof fn lemma_decimal_len(n: nat)
    ensures
        decimal(n).len() >= 1,
        n >= 10 ==> decimal(n).len() >= 2,
    decreases n,
{
    if n >= 10 {
        lemma_decimal_len(n / 10);
    }
}

/// Different numbers have different decimal renderings.
proof fn lemma_decimal_injective(n: nat, m: nat)
    requires
        decimal(n) == decimal(m),
    ensures
        n == m,
    decreases n,
{
    lemma_decimal_len(n);
    lemma_decimal_len(m);
    if n >= 10 && m >= 10 {
        assert(decimal(n).drop_last() == decimal(n / 10));
        assert(decimal(m).drop_last() == decimal(m / 10));
        lemma_decimal_injective(n / 10, m / 10);
        assert(digit_char(n % 10) == decimal(n).last());
        assert(digit_char(m % 10) == decimal(m).last());
    } else if n < 10 && m < 10 {
        assert(decimal(n)[0] == digit_char(n));
        assert(decimal(m)[0] == digit_char(m));
    } else if n < 10 {
        assert(decimal(n).len() == 1);
    } else {
        assert(decimal(m).len() == 1);
    }
}

/// The names that the generator makes from one name for different counts
/// differ: every block made from the same name gets a name of its own.
pub proof fn law_generated_names_distinct(name: Seq<char>, n: nat, m: nat)
    requires
        n != m,
    ensures
        spec_generated_name(name, n) != spec_generated_name(name, m),
{
    if spec_generated_name(name, n) == spec_generated_name(name, m) {
        lemma_generated_name_injective(name, n, name, m);
    }
}

} // verus!
