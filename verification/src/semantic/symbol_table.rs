use crate::parser::ast::common::{SpecType, Type};
use vstd::prelude::*;

verus! {

/// Errors of the symbol table.
#[derive(Debug)]
pub enum SymbolTableError {
    /// The symbol is in no scope of the table.
    SymbolNotFound(String),
    /// The symbol is already defined in the current scope.
    SymbolRedefined(String),
    /// The current scope has no parent scope.
    NoParentScope,
}

/// The models of the entries of one scope, in the order they were added.
pub open spec fn entries_view(v: Seq<(String, SymbolInfo)>) -> Seq<(Seq<char>, SymbolInfoView)> {
    Seq::new(v.len(), |i: int| (v[i].0@, v[i].1@))
}

/// The map from names to symbols that a list of entries stands for.
pub open spec fn scope_map(e: Seq<(Seq<char>, SymbolInfoView)>) -> Map<Seq<char>, SymbolInfoView>
    decreases e.len(),
{
    if e.len() == 0 {
        Map::empty()
    } else {
        scope_map(e.drop_last()).insert(e.last().0, e.last().1)
    }
}

/// No name occurs twice among the entries.
pub open spec fn names_distinct(e: Seq<(Seq<char>, SymbolInfoView)>) -> bool {
    forall|i: int, j: int| 0 <= i < j < e.len() ==> e[i].0 != e[j].0
}

/// The symbol that `name` resolves to in a stack of scopes, innermost last:
/// the innermost scope that defines it wins.
pub open spec fn lookup(scopes: Seq<Map<Seq<char>, SymbolInfoView>>, name: Seq<char>) -> Option<SymbolInfoView>
    decreases scopes.len(),
{
    if scopes.len() == 0 {
        None
    } else if scopes.last().contains_key(name) {
        Some(scopes.last()[name])
    } else {
        lookup(scopes.drop_last(), name)
    }
}

/// Adds `name` to the innermost scope.
pub open spec fn scopes_add(scopes: Seq<Map<Seq<char>, SymbolInfoView>>, name: Seq<char>, info: SymbolInfoView) -> Seq<Map<Seq<char>, SymbolInfoView>> {
    scopes.update(scopes.len() - 1, scopes.last().insert(name, info))
}

pub proof fn lemma_scope_map(e: Seq<(Seq<char>, SymbolInfoView)>)
    requires
        names_distinct(e),
    ensures
        forall|k: Seq<char>| #[trigger] scope_map(e).contains_key(k) <==> exists|i: int| 0 <= i < e.len() && e[i].0 == k,
        forall|i: int| 0 <= i < e.len() ==> #[trigger] scope_map(e)[e[i].0] == e[i].1,
    decreases e.len(),
{
    if e.len() > 0 {
        let d = e.drop_last();
        assert(names_distinct(d));
        lemma_scope_map(d);
        assert forall|k: Seq<char>| #[trigger] scope_map(e).contains_key(k) implies exists|i: int| 0 <= i < e.len() && e[i].0 == k by {
            assert(scope_map(e) == scope_map(d).insert(e.last().0, e.last().1));
            if k != e.last().0 {
                assert(scope_map(d).contains_key(k));
                let i = choose|i: int| 0 <= i < d.len() && d[i].0 == k;
                assert(e[i].0 == k);
            } else {
                assert(e[e.len() - 1].0 == k);
            }
        }
        assert forall|k: Seq<char>| (exists|i: int| 0 <= i < e.len() && e[i].0 == k) implies #[trigger] scope_map(e).contains_key(k) by {
            let i = choose|i: int| 0 <= i < e.len() && e[i].0 == k;
            assert(scope_map(e) == scope_map(d).insert(e.last().0, e.last().1));
            if i < e.len() - 1 {
                assert(d[i].0 == k);
                assert(scope_map(d).contains_key(k));
            }
        }
        assert forall|i: int| 0 <= i < e.len() implies #[trigger] scope_map(e)[e[i].0] == e[i].1 by {
            assert(scope_map(e) == scope_map(d).insert(e.last().0, e.last().1));
            if i < e.len() - 1 {
                assert(d[i] == e[i]);
                assert(e[i].0 != e[e.len() - 1].0);
                assert(scope_map(d)[d[i].0] == d[i].1);
            }
        }
    }
}

#[derive(Debug, Clone, Copy, PartialEq, Eq)]
pub enum Qualifier {
    Var,
    Const,
}

/// What the semantic checker knows of a symbol.
#[derive(Debug, PartialEq, Eq)]
pub struct SymbolInfo {
    pub qualifier: Qualifier,
    pub ty: Type,
    pub const_val: Option<i32>,
}

pub struct SymbolInfoView {
    pub qualifier: Qualifier,
    pub ty: SpecType,
    pub const_val: Option<i32>,
}

impl View for SymbolInfo {
    type V = SymbolInfoView;

    open spec fn view(&self) -> SymbolInfoView {
        SymbolInfoView { qualifier: self.qualifier, ty: self.ty@, const_val: self.const_val }
    }
}

/// `lookup` finds the innermost scope that holds the name.
pub proof fn lemma_lookup_found(scopes: Seq<Map<Seq<char>, SymbolInfoView>>, name: Seq<char>, k: int)
    requires
        0 <= k < scopes.len(),
        scopes[k].contains_key(name),
        forall|j: int| k < j < scopes.len() ==> !(#[trigger] scopes[j]).contains_key(name),
    ensures
        lookup(scopes, name) == Some(scopes[k][name]),
    decreases scopes.len(),
{
    if k < scopes.len() - 1 {
        assert(!scopes[scopes.len() - 1].contains_key(name));
        let d = scopes.drop_last();
        assert forall|j: int| k < j < d.len() implies !(#[trigger] d[j]).contains_key(name) by {
            assert(d[j] == scopes[j]);
        }
        lemma_lookup_found(d, name, k);
    }
}

/// `lookup` fails where no scope holds the name.
pub proof fn lemma_lookup_missing(scopes: Seq<Map<Seq<char>, SymbolInfoView>>, name: Seq<char>)
    requires
        forall|j: int| 0 <= j < scopes.len() ==> !(#[trigger] scopes[j]).contains_key(name),
    ensures
        lookup(scopes, name) == None::<SymbolInfoView>,
    decreases scopes.len(),
{
    if scopes.len() > 0 {
        let d = scopes.drop_last();
        assert(!scopes[scopes.len() - 1].contains_key(name));
        assert forall|j: int| 0 <= j < d.len() implies !(#[trigger] d[j]).contains_key(name) by {
            assert(d[j] == scopes[j]);
        }
        lemma_lookup_missing(d, name);
    }
}

/// The position of `id` among the entries of one scope, if it is there.
fn scope_position(scope: &Vec<(String, SymbolInfo)>, id: &String) -> (r: Option<usize>)
    ensures
        r matches Some(i) ==> i < scope@.len() && scope@[i as int].0@ == id@,
        r is None ==> forall|j: int| 0 <= j < scope@.len() ==> (#[trigger] scope@[j]).0@ != id@,
{
    let mut i: usize = 0;
    while i < scope.len()
        invariant
            i <= scope@.len(),
            forall|j: int| 0 <= j < i ==> (#[trigger] scope@[j]).0@ != id@,
        decreases scope@.len() - i,
    {
        if scope[i].0 == *id {
            return Some(i);
        }
        i = i + 1;
    }
    None
}

/// A stack of scopes mapping names to symbols. The first scope is the
/// outermost, the last the current one.
#[derive(Debug)]
pub struct SymbolTable {
    scopes: Vec<Vec<(String, SymbolInfo)>>,
}

impl View for SymbolTable {
    type V = Seq<Map<Seq<char>, SymbolInfoView>>;

    closed spec fn view(&self) -> Seq<Map<Seq<char>, SymbolInfoView>> {
        Seq::new(self.scopes@.len(), |i: int| scope_map(entries_view(self.scopes@[i]@)))
    }
}

fn clone_scope(v: &Vec<(String, SymbolInfo)>) -> (r: Vec<(String, SymbolInfo)>)
    ensures
        entries_view(r@) == entries_view(v@),
{
    let mut r: Vec<(String, SymbolInfo)> = Vec::new();
    let mut i: usize = 0;
    while i < v.len()
        invariant
            i <= v@.len(),
            r@.len() == i,
            forall|j: int| 0 <= j < i ==> (#[trigger] r@[j]).0@ == v@[j].0@ && r@[j].1@ == v@[j].1@,
        decreases v@.len() - i,
    {
        let n = v[i].0.clone();
        let info = v[i].1.duplicate();
        r.push((n, info));
        i = i + 1;
    }
    assert(entries_view(r@) =~= entries_view(v@));
    r
}

impl SymbolTable {
    /// Well-formedness: there is a current scope, and no scope holds a
    /// name twice.
    pub closed spec fn wf(&self) -> bool {
        &&& self.scopes@.len() >= 1
        &&& forall|i: int| 0 <= i < self.scopes@.len() ==> names_distinct(entries_view(#[trigger] self.scopes@[i]@))
    }

    /// A well-formed table has a current scope.
    pub proof fn lemma_wf_nonempty(&self)
        requires
            self.wf(),
        ensures
            self@.len() >= 1,
    {
    }

    /// A table with one empty scope.
    pub fn new() -> (r: SymbolTable)
        ensures
            r.wf(),
            r@ == seq![Map::<Seq<char>, SymbolInfoView>::empty()],
    {
        let mut scopes: Vec<Vec<(String, SymbolInfo)>> = Vec::new();
        scopes.push(Vec::new());
        let r = SymbolTable { scopes };
        assert(r@ =~= seq![Map::<Seq<char>, SymbolInfoView>::empty()]);
        r
    }

    fn clone_scopes(&self, n: usize) -> (r: Vec<Vec<(String, SymbolInfo)>>)
        requires
            n <= self.scopes@.len(),
        ensures
            r@.len() == n,
            forall|i: int| 0 <= i < n ==> entries_view(#[trigger] r@[i]@) == entries_view(self.scopes@[i]@),
    {
        let mut r: Vec<Vec<(String, SymbolInfo)>> = Vec::new();
        let mut i: usize = 0;
        while i < n
            invariant
                n <= self.scopes@.len(),
                i <= n,
                r@.len() == i,
                forall|j: int| 0 <= j < i ==> entries_view(#[trigger] r@[j]@) == entries_view(self.scopes@[j]@),
            decreases n - i,
        {
            r.push(clone_scope(&self.scopes[i]));
            i = i + 1;
        }
        r
    }

    /// Makes `parent` the outer scopes of this table: the table becomes the
    /// scopes of `parent` with this table's current scope innermost.
    pub fn set_parent(&mut self, parent: &SymbolTable)
        requires
            old(self).wf(),
            parent.wf(),
        ensures
            final(self).wf(),
            final(self)@ == parent@.push(old(self)@.last()),
    {
        let mut scopes = parent.clone_scopes(parent.scopes.len());
        let last = self.scopes.len() - 1;
        scopes.push(clone_scope(&self.scopes[last]));
        let ghost old_view = self@;
        self.scopes = scopes;
        assert(self@ =~= parent@.push(old_view.last()));
    }

    /// Adds a symbol to the current scope. A name that the current scope
    /// already holds is refused, and the table is left as it was.
    pub fn add_symbol(&mut self, id: String, syminfo: SymbolInfo) -> (r: Result<(), SymbolTableError>)
        requires
            old(self).wf(),
        ensures
            final(self).wf(),
            old(self)@.last().contains_key(id@) ==> {
                &&& r matches Err(SymbolTableError::SymbolRedefined(s)) && s@ == id@
                &&& final(self)@ == old(self)@
            },
            !old(self)@.last().contains_key(id@) ==> {
                &&& r is Ok
                &&& final(self)@ == scopes_add(old(self)@, id@, syminfo@)
            },
    {
        let last = self.scopes.len() - 1;
        let ghost ev = entries_view(self.scopes@[last as int]@);
        proof {
            lemma_scope_map(ev);
        }
        match scope_position(&self.scopes[last], &id) {
            Some(i) => {
                assert(ev[i as int].0 == id@);
                Err(SymbolTableError::SymbolRedefined(id))
            },
            None => {
                let ghost old_view = self@;
                let ghost idv = id@;
                let ghost infov = syminfo@;
                assert forall|j: int| 0 <= j < ev.len() implies ev[j].0 != idv by {
                    assert(self.scopes@[last as int]@[j].0@ != idv);
                }
                self.scopes[last].push((id, syminfo));
                proof {
                    let ev2 = entries_view(self.scopes@[last as int]@);
                    assert(ev2 =~= ev.push((idv, infov)));
                    assert(ev2.drop_last() =~= ev);
                    assert(self@ =~= scopes_add(old_view, idv, infov));
                }
                Ok(())
            },
        }
    }

    /// Removes a name from the current scope; a name that is not there is
    /// ignored.
    pub fn remove_symbol(&mut self, id: &String)
        requires
            old(self).wf(),
        ensures
            final(self).wf(),
            final(self)@ == old(self)@.update(old(self)@.len() - 1, old(self)@.last().remove(id@)),
    {
        let last = self.scopes.len() - 1;
        let ghost ev = entries_view(self.scopes@[last as int]@);
        let ghost old_view = self@;
        proof {
            lemma_scope_map(ev);
        }
        match scope_position(&self.scopes[last], id) {
            Some(i) => {
                let ghost removed = self.scopes@[last as int]@.remove(i as int);
                proof {
                    assert(ev[i as int].0 == id@);
                    let ev2 = entries_view(removed);
                    assert(ev2 =~= ev.remove(i as int));
                    assert(names_distinct(ev2));
                    lemma_scope_map(ev2);
                    assert(scope_map(ev2) =~= scope_map(ev).remove(id@)) by {
                        assert forall|k: Seq<char>| scope_map(ev2).contains_key(k) <==> scope_map(ev).remove(id@).contains_key(k) by {
                            if scope_map(ev2).contains_key(k) {
                                let j = choose|j: int| 0 <= j < ev2.len() && ev2[j].0 == k;
                                if j < i { assert(ev[j].0 == k); } else { assert(ev[j + 1].0 == k); }
                                assert(k != id@);
                            }
                            if scope_map(ev).remove(id@).contains_key(k) {
                                let j = choose|j: int| 0 <= j < ev.len() && ev[j].0 == k;
                                assert(j != i);
                                if j < i { assert(ev2[j].0 == k); } else { assert(ev2[j - 1].0 == k); }
                            }
                        }
                        assert forall|k: Seq<char>| #[trigger] scope_map(ev2).contains_key(k) implies scope_map(ev2)[k] == scope_map(ev)[k] by {
                            let j = choose|j: int| 0 <= j < ev2.len() && ev2[j].0 == k;
                            if j < i { assert(ev2[j] == ev[j]); } else { assert(ev2[j] == ev[j + 1]); }
                        }
                    }
                }
                self.scopes[last].remove(i);
                assert(self@ =~= old_view.update(old_view.len() - 1, old_view.last().remove(id@)));
            },
            None => {
                assert(!scope_map(ev).contains_key(id@)) by {
                    if scope_map(ev).contains_key(id@) {
                        let j = choose|j: int| 0 <= j < ev.len() && ev[j].0 == id@;
                        assert(self.scopes@[last as int]@[j].0@ == id@);
                    }
                }
                assert(old_view.last().remove(id@) =~= old_view.last());
                assert(old_view.update(old_view.len() - 1, old_view.last().remove(id@)) =~= old_view);
            },
        }
    }

    /// Looks the name up from the current scope outwards.
    pub fn find_symbol(&self, id: &String) -> (r: Result<SymbolInfo, SymbolTableError>)
        requires
            self.wf(),
        ensures
            lookup(self@, id@) matches Some(info) ==> (r matches Ok(s) && s@ == info),
            lookup(self@, id@) is None ==> (r matches Err(SymbolTableError::SymbolNotFound(s)) && s@ == id@),
    {
        let mut k: usize = self.scopes.len();
        while k > 0
            invariant
                self.wf(),
                k <= self.scopes@.len(),
                forall|j: int| k <= j < self@.len() ==> !(#[trigger] self@[j]).contains_key(id@),
            decreases k,
        {
            let idx = k - 1;
            let ghost ev = entries_view(self.scopes@[idx as int]@);
            proof {
                lemma_scope_map(ev);
            }
            match scope_position(&self.scopes[idx], id) {
                Some(i) => {
                    proof {
                        assert(ev[i as int].0 == id@);
                        lemma_lookup_found(self@, id@, idx as int);
                    }
                    return Ok(self.scopes[idx][i].1.duplicate());
                },
                None => {
                    assert(!self@[idx as int].contains_key(id@)) by {
                        if scope_map(ev).contains_key(id@) {
                            let j = choose|j: int| 0 <= j < ev.len() && ev[j].0 == id@;
                            assert(self.scopes@[idx as int]@[j].0@ == id@);
                        }
                    }
                },
            }
            k = idx;
        }
        proof {
            lemma_lookup_missing(self@, id@);
        }
        Err(SymbolTableError::SymbolNotFound(id.clone()))
    }

    /// A child table: these scopes with a new, empty current scope.
    pub fn enter_scope(&self) -> (r: SymbolTable)
        requires
            self.wf(),
        ensures
            r.wf(),
            r@ == self@.push(Map::empty()),
    {
        let mut scopes = self.clone_scopes(self.scopes.len());
        scopes.push(Vec::new());
        let r = SymbolTable { scopes };
        assert(r@ =~= self@.push(Map::empty()));
        r
    }

    /// Whether the current scope is the outermost one.
    pub fn is_top_scope(&self) -> (r: bool)
        ensures
            r == (self@.len() == 1),
    {
        self.scopes.len() == 1
    }

    /// The parent table: these scopes without the current one. The
    /// outermost scope has no parent.
    pub fn exit_scope(&self) -> (r: Result<SymbolTable, SymbolTableError>)
        requires
            self.wf(),
        ensures
            r matches Ok(t) ==> t.wf(),
            self@.len() == 1 ==> r matches Err(SymbolTableError::NoParentScope),
            self@.len() > 1 ==> (r matches Ok(t) && t@ == self@.drop_last()),
    {
        if self.scopes.len() == 1 {
            Err(SymbolTableError::NoParentScope)
        } else {
            let scopes = self.clone_scopes(self.scopes.len() - 1);
            let r = SymbolTable { scopes };
            assert(r@ =~= self@.drop_last());
            Ok(r)
        }
    }
}

/// Errors of a [`SymbolInfo`] query.
#[derive(Debug)]
pub enum SymbolInfoError {
    /// The symbol holds no constant value.
    NotConstValue,
}

impl SymbolInfo {
    /// Whether the symbol is qualified `const`.
    pub fn is_const_val(&self) -> (r: bool)
        ensures
            r == (self.qualifier == Qualifier::Const),
    {
        match self.qualifier {
            Qualifier::Const => true,
            Qualifier::Var => false,
        }
    }

    /// The constant value that the symbol holds.
    pub fn const_val_of(&self) -> (r: Result<i32, SymbolInfoError>)
        ensures
            self.const_val matches Some(v) ==> r == Ok::<i32, SymbolInfoError>(v),
            self.const_val is None ==> r matches Err(SymbolInfoError::NotConstValue),
    {
        match self.const_val {
            Some(i) => Ok(i),
            None => Err(SymbolInfoError::NotConstValue),
        }
    }

    /// A copy with the same model.
    pub fn duplicate(&self) -> (r: SymbolInfo)
        ensures
            r@ == self@,
    {
        SymbolInfo { qualifier: self.qualifier, ty: self.ty.duplicate(), const_val: self.const_val }
    }
}

impl Clone for SymbolInfo {
    fn clone(&self) -> (r: SymbolInfo)
        ensures
            r@ == self@,
    {
        self.duplicate()
    }
}


/// A symbol added to the current scope is what its name resolves to.
pub proof fn law_find_after_add(scopes: Seq<Map<Seq<char>, SymbolInfoView>>, name: Seq<char>, info: SymbolInfoView)
    requires
        scopes.len() >= 1,
    ensures
        lookup(scopes_add(scopes, name, info), name) == Some(info),
{
}

/// Adding a symbol changes what no other name resolves to.
pub proof fn law_add_keeps_others(scopes: Seq<Map<Seq<char>, SymbolInfoView>>, name: Seq<char>, info: SymbolInfoView, other: Seq<char>)
    requires
        scopes.len() >= 1,
        other != name,
    ensures
        lookup(scopes_add(scopes, name, info), other) == lookup(scopes, other),
{
    assert(scopes_add(scopes, name, info).drop_last() =~= scopes.drop_last());
}

/// Leaving a scope just entered gives back the scopes as they were.
pub proof fn law_exit_after_enter(scopes: Seq<Map<Seq<char>, SymbolInfoView>>)
    ensures
        scopes.push(Map::empty()).drop_last() == scopes,
        forall|name: Seq<char>| #[trigger] lookup(scopes.push(Map::empty()), name) == lookup(scopes, name),
{
    assert(scopes.push(Map::empty()).drop_last() =~= scopes);
}

/// A symbol defined in an inner scope hides one of the same name outside
/// it, and only while the inner scope lasts.
pub proof fn law_shadowing(scopes: Seq<Map<Seq<char>, SymbolInfoView>>, name: Seq<char>, info: SymbolInfoView)
    ensures
        lookup(scopes_add(scopes.push(Map::empty()), name, info), name) == Some(info),
        lookup(scopes_add(scopes.push(Map::empty()), name, info).drop_last(), name) == lookup(scopes, name),
{
    assert(scopes_add(scopes.push(Map::empty()), name, info).drop_last() =~= scopes);
}

/// Removing a name from the current scope uncovers what it is bound to in
/// the outer scopes.
pub proof fn law_remove_uncovers(scopes: Seq<Map<Seq<char>, SymbolInfoView>>, name: Seq<char>)
    requires
        scopes.len() >= 1,
    ensures
        lookup(scopes.update(scopes.len() - 1, scopes.last().remove(name)), name) == lookup(scopes.drop_last(), name),
{
    assert(scopes.update(scopes.len() - 1, scopes.last().remove(name)).drop_last() =~= scopes.drop_last());
}


/// The scopes after the additions `adds`, in order, to the current scope.
pub open spec fn add_all(scopes: Seq<Map<Seq<char>, SymbolInfoView>>, adds: Seq<(Seq<char>, SymbolInfoView)>) -> Seq<Map<Seq<char>, SymbolInfoView>>
    decreases adds.len(),
{
    if adds.len() == 0 {
        scopes
    } else {
        scopes_add(add_all(scopes, adds.drop_last()), adds.last().0, adds.last().1)
    }
}

/// The symbol last added for `name` among `adds`, if any.
pub open spec fn latest(adds: Seq<(Seq<char>, SymbolInfoView)>, name: Seq<char>) -> Option<SymbolInfoView>
    decreases adds.len(),
{
    if adds.len() == 0 {
        None
    } else if adds.last().0 == name {
        Some(adds.last().1)
    } else {
        latest(adds.drop_last(), name)
    }
}

/// Entering a scope, adding any symbols to it and leaving it gives back the
/// scopes as they were before.
pub proof fn law_exit_after_adds(scopes: Seq<Map<Seq<char>, SymbolInfoView>>, adds: Seq<(Seq<char>, SymbolInfoView)>)
    ensures
        add_all(scopes.push(Map::empty()), adds).len() == scopes.len() + 1,
        add_all(scopes.push(Map::empty()), adds).drop_last() == scopes,
    decreases adds.len(),
{
    if adds.len() == 0 {
        assert(scopes.push(Map::empty()).drop_last() =~= scopes);
    } else {
        law_exit_after_adds(scopes, adds.drop_last());
        let x = add_all(scopes.push(Map::empty()), adds.drop_last());
        assert(scopes_add(x, adds.last().0, adds.last().1).drop_last() =~= x.drop_last());
    }
}

/// After any additions to the current scope, a name resolves to the
/// symbol last added for it, and a name added for nowhere resolves as it
/// did before.
pub proof fn law_lookup_after_adds(scopes: Seq<Map<Seq<char>, SymbolInfoView>>, adds: Seq<(Seq<char>, SymbolInfoView)>, name: Seq<char>)
    requires
        scopes.len() >= 1,
    ensures
        add_all(scopes, adds).len() == scopes.len(),
        lookup(add_all(scopes, adds), name) == match latest(adds, name) {
            Some(info) => Some(info),
            None => lookup(scopes, name),
        },
    decreases adds.len(),
{
    if adds.len() > 0 {
        law_lookup_after_adds(scopes, adds.drop_last(), name);
        let x = add_all(scopes, adds.drop_last());
        if adds.last().0 == name {
            law_find_after_add(x, name, adds.last().1);
        } else {
            law_add_keeps_others(x, adds.last().0, adds.last().1, name);
        }
    }
}

} // verus!
