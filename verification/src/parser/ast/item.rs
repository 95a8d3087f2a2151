use crate::parser::ast::common::{Identifier, IdentifierView, SpecType, Type};
use crate::parser::ast::statement::{StmtView, Statement};
use vstd::prelude::*;

verus! {

/// A top-level item of a compile unit.
#[derive(Debug)]
pub enum Item {
    FuncDef(FuncDef),
    GlobalVar(Statement),
}

/// A function definition.
#[derive(Debug)]
pub struct FuncDef {
    pub ident: Identifier,
    pub fparams: Vec<(Identifier, Type)>,
    pub return_type: Type,
    pub body: Vec<Statement>,
}

pub struct FuncDefView {
    pub ident: IdentifierView,
    pub fparams: Seq<(IdentifierView, SpecType)>,
    pub return_type: SpecType,
    pub body: Seq<StmtView>,
}

pub enum ItemView {
    FuncDef(FuncDefView),
    GlobalVar(StmtView),
}

/// The models of a function's parameters, in order.
pub open spec fn fparams_view(v: Seq<(Identifier, Type)>) -> Seq<(IdentifierView, SpecType)> {
    Seq::new(v.len(), |i: int| (v[i].0@, v[i].1@))
}

/// The models of a list of statements, in order.
pub open spec fn body_view(v: Seq<Statement>) -> Seq<StmtView> {
    Seq::new(v.len(), |i: int| v[i]@)
}

/// The models of a list of items, in order.
pub open spec fn items_view(v: Seq<Item>) -> Seq<ItemView> {
    Seq::new(v.len(), |i: int| v[i]@)
}

impl View for FuncDef {
    type V = FuncDefView;

    open spec fn view(&self) -> FuncDefView {
        FuncDefView {
            ident: self.ident@,
            fparams: fparams_view(self.fparams@),
            return_type: self.return_type@,
            body: body_view(self.body@),
        }
    }
}

impl View for Item {
    type V = ItemView;

    open spec fn view(&self) -> ItemView {
        match self {
            Item::FuncDef(f) => ItemView::FuncDef(f@),
            Item::GlobalVar(s) => ItemView::GlobalVar(s@),
        }
    }
}

} // verus!
