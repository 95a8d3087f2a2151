use crate::semantic::symbol_table::{SymbolInfo, SymbolInfoView};
use vstd::prelude::*;

verus! {

/// Identifiers are told apart by a random UUID as well as by name.
#[verifier::external_type_specification]
#[verifier::external_body]
pub struct ExUuid(uuid::Uuid);

/// Draws a fresh random UUID (`uuid::Uuid::new_v4`). Nothing is promised
/// of the value: it is random.
#[verifier::external_body]
fn fresh_uuid() -> uuid::Uuid {
    uuid::Uuid::new_v4()
}

/// A SysY type.
#[non_exhaustive]
#[derive(Debug, PartialEq, Eq)]
pub enum Type {
    Void,
    Simple(String),
    Pointer(Box<Type>),
    Function(Vec<Box<Type>>, Box<Type>),
}

/// The mathematical model of a [`Type`].
pub enum SpecType {
    Void,
    Simple(Seq<char>),
    Pointer(Box<SpecType>),
    Function(Seq<SpecType>, Box<SpecType>),
}

/// The models of a list of parameter types, in order.
pub open spec fn type_seq_view(ts: Seq<Box<Type>>) -> Seq<SpecType>
    decreases ts,
{
    if ts.len() == 0 {
        Seq::empty()
    } else {
        proof {
            assert(decreases_to!(ts => ts[ts.len() - 1]));
        }
        type_seq_view(ts.drop_last()).push(type_view(*ts[ts.len() - 1]))
    }
}

/// The model of a type.
pub open spec fn type_view(t: Type) -> SpecType
    decreases t,
{
    match t {
        Type::Void => SpecType::Void,
        Type::Simple(s) => SpecType::Simple(s@),
        Type::Pointer(b) => SpecType::Pointer(Box::new(type_view(*b))),
        Type::Function(ps, r) => {
            proof {
                assert(decreases_to!(ps => ps@));
            }
            SpecType::Function(type_seq_view(ps@), Box::new(type_view(*r)))
        },
    }
}

/// The model list has one entry per parameter type, each its model.
pub proof fn lemma_type_seq_view(ts: Seq<Box<Type>>)
    ensures
        type_seq_view(ts).len() == ts.len(),
        forall|j: int| 0 <= j < ts.len() ==> #[trigger] type_seq_view(ts)[j] == type_view(*ts[j]),
    decreases ts.len(),
{
    if ts.len() > 0 {
        lemma_type_seq_view(ts.drop_last());
    }
}

impl View for Type {
    type V = SpecType;

    open spec fn view(&self) -> SpecType {
        type_view(*self)
    }
}

impl Type {
    /// A copy of the type with the same model.
    pub fn duplicate(&self) -> (r: Type)
        ensures
            r@ == self@,
        decreases self,
    {
        match self {
            Type::Void => Type::Void,
            Type::Simple(s) => Type::Simple(s.clone()),
            Type::Pointer(b) => Type::Pointer(Box::new((**b).duplicate())),
            Type::Function(ps, r) => {
                let mut out: Vec<Box<Type>> = Vec::new();
                let mut i: usize = 0;
                while i < ps.len()
                    invariant
                        *self == Type::Function(*ps, *r),
                        i <= ps@.len(),
                        out@.len() == i,
                        forall|j: int| 0 <= j < i ==> type_view(*#[trigger] out@[j]) == type_view(*ps@[j]),
                    decreases ps@.len() - i,
                {
                    proof {
                        assert(decreases_to!(*self => (*self)->Function_0));
                        assert(decreases_to!(*ps => ps@));
                        assert(decreases_to!(ps@ => ps@[i as int]));
                        assert(decreases_to!(*self => *ps@[i as int]));
                    }
                    out.push(Box::new(ps[i].duplicate()));
                    i = i + 1;
                }
                let rt = (**r).duplicate();
                let res = Type::Function(out, Box::new(rt));
                proof {
                    lemma_type_seq_view(out@);
                    lemma_type_seq_view(ps@);
                    assert(type_seq_view(out@) =~= type_seq_view(ps@));
                }
                res
            }
        }
    }
}

/// An identifier as written in the source, with what the semantic checker
/// resolved it to.
#[derive(Debug)]
pub struct Identifier {
    /// The identifier's name.
    pub name: String,
    /// The symbol that the semantic checker resolved the identifier to.
    pub resolve_status: ResolveStatus,
    /// Two identifiers of the same name and symbol are told apart by this.
    pub uuid: uuid::Uuid,
}

/// Whether an identifier has been resolved to a symbol yet.
#[derive(Debug)]
pub enum ResolveStatus {
    Unresolved,
    Resolved(SymbolInfo),
}

pub enum ResolveStatusView {
    Unresolved,
    Resolved(SymbolInfoView),
}

pub struct IdentifierView {
    pub name: Seq<char>,
    pub status: ResolveStatusView,
    pub uuid: uuid::Uuid,
}

impl View for ResolveStatus {
    type V = ResolveStatusView;

    open spec fn view(&self) -> ResolveStatusView {
        match self {
            ResolveStatus::Unresolved => ResolveStatusView::Unresolved,
            ResolveStatus::Resolved(info) => ResolveStatusView::Resolved(info@),
        }
    }
}

impl View for Identifier {
    type V = IdentifierView;

    open spec fn view(&self) -> IdentifierView {
        IdentifierView { name: self.name@, status: self.resolve_status@, uuid: self.uuid }
    }
}

impl ResolveStatus {
    /// A copy with the same model.
    pub fn duplicate(&self) -> (r: ResolveStatus)
        ensures
            r@ == self@,
    {
        match self {
            ResolveStatus::Unresolved => ResolveStatus::Unresolved,
            ResolveStatus::Resolved(info) => ResolveStatus::Resolved(info.duplicate()),
        }
    }
}

impl Identifier {
    /// A new, unresolved identifier with a fresh random UUID.
    pub fn new(name: String) -> (r: Identifier)
        ensures
            r.name@ == name@,
            r.resolve_status@ == ResolveStatusView::Unresolved,
    {
        Identifier { name, resolve_status: ResolveStatus::Unresolved, uuid: fresh_uuid() }
    }

    /// A copy with the same name, resolution and UUID.
    pub fn duplicate(&self) -> (r: Identifier)
        ensures
            r@ == self@,
    {
        Identifier {
            name: self.name.clone(),
            resolve_status: self.resolve_status.duplicate(),
            uuid: self.uuid,
        }
    }

    /// The identifier as it is displayed: its name.
    pub fn display(&self) -> (r: String)
        ensures
            r@ == self.name@,
    {
        self.name.clone()
    }
}

impl Clone for ResolveStatus {
    fn clone(&self) -> (r: ResolveStatus)
        ensures
            r@ == self@,
    {
        self.duplicate()
    }
}

impl Clone for Identifier {
    fn clone(&self) -> (r: Identifier)
        ensures
            r@ == self@,
    {
        self.duplicate()
    }
}

impl Clone for Type {
    fn clone(&self) -> (r: Type)
        ensures
            r@ == self@,
    {
        self.duplicate()
    }
}

} // verus!
