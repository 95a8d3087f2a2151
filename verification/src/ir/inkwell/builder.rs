//! What the LLVM IR generator keeps apart from LLVM: its errors and its
//! scopes of named values and functions.
use crate::ir::program_builder::{SymbolValueMap, SymbolValueMapError, scoped_lookup};
use crate::semantic::symbol_table::{SymbolInfoError, SymbolTableError};
use vstd::prelude::*;

verus! {

/// Errors of the LLVM IR generator.
#[derive(Debug)]
pub enum IrGeneratorError {
    SymbolTableError(SymbolTableError),
    SymbolInfoError(SymbolInfoError),
    /// An error of the LLVM instruction builder, by its message.
    LlvmBuilderError(String),
    ScopeError(ScopeError),
}

/// Errors of the generator's scopes.
#[derive(Debug)]
pub enum ScopeError {
    /// The current scope has no parent scope.
    NoParentScope,
}

/// A stack of scopes binding names to values and to functions; the
/// innermost is the current one.
pub struct Scope<V: Copy, F: Copy> {
    map: SymbolValueMap<V, F>,
}

impl<V: Copy, F: Copy> Scope<V, F> {
    /// The value bindings of each scope, innermost last.
    pub closed spec fn values(&self) -> Seq<Map<Seq<char>, V>> {
        self.map.values()
    }

    /// The function bindings of each scope, innermost last.
    pub closed spec fn functions(&self) -> Seq<Map<Seq<char>, F>> {
        self.map.functions()
    }

    /// Well-formedness: there is a current scope.
    pub closed spec fn wf(&self) -> bool {
        self.map.wf()
    }

    /// Well-formed scopes have a current scope, and as many scopes of
    /// functions as of values.
    pub proof fn lemma_wf(&self)
        requires
            self.wf(),
        ensures
            self.values().len() >= 1,
            self.functions().len() == self.values().len(),
    {
        self.map.lemma_wf();
    }

    /// A stack of one empty scope.
    pub fn new() -> (r: Self)
        ensures
            r.wf(),
            r.values() == seq![Map::<Seq<char>, V>::empty()],
            r.functions() == seq![Map::<Seq<char>, F>::empty()],
    {
        Scope { map: SymbolValueMap::new() }
    }

    /// Binds a name to a value in the current scope.
    pub fn add_value(&mut self, id: String, value: V)
        requires
            old(self).wf(),
        ensures
            final(self).wf(),
            final(self).values() == old(self).values().update(old(self).values().len() - 1, old(self).values().last().insert(id@, value)),
            final(self).functions() == old(self).functions(),
    {
        self.map.add_value(id, value);
    }

    /// The value a name is bound to, from the current scope outwards.
    pub fn find_value(&self, id: &String) -> (r: Option<V>)
        ensures
            r == scoped_lookup(self.values(), id@),
    {
        self.map.find_value(id)
    }

    /// Binds a name to a function in the current scope.
    pub fn add_function(&mut self, id: String, func: F)
        requires
            old(self).wf(),
        ensures
            final(self).wf(),
            final(self).functions() == old(self).functions().update(old(self).functions().len() - 1, old(self).functions().last().insert(id@, func)),
            final(self).values() == old(self).values(),
    {
        self.map.add_function(id, func);
    }

    /// The function a name is bound to, from the current scope outwards.
    pub fn find_function(&self, id: &String) -> (r: Option<F>)
        ensures
            r == scoped_lookup(self.functions(), id@),
    {
        self.map.find_function(id)
    }

    /// These scopes with a new, empty current scope.
    pub fn enter_scope(&self) -> (r: Self)
        requires
            self.wf(),
        ensures
            r.wf(),
            r.values() == self.values().push(Map::empty()),
            r.functions() == self.functions().push(Map::empty()),
    {
        Scope { map: self.map.enter_scope() }
    }

    /// These scopes without the current one; the outermost scope has no
    /// parent.
    pub fn exit_scope(&self) -> (r: Result<Self, ScopeError>)
        requires
            self.wf(),
        ensures
            self.values().len() == 1 ==> r matches Err(ScopeError::NoParentScope),
            self.values().len() > 1 ==> (r matches Ok(s) && s.wf() && s.values() == self.values().drop_last()
                && s.functions() == self.functions().drop_last()),
    {
        match self.map.exit_scope() {
            Ok(m) => Ok(Scope { map: m }),
            Err(SymbolValueMapError::NoParentScope) => Err(ScopeError::NoParentScope),
        }
    }
}

} // verus!
