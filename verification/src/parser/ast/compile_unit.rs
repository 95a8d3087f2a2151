use crate::parser::ast::item::{Item, ItemView, items_view};
use vstd::prelude::*;

verus! {

/// A whole SysY source file.
#[derive(Debug)]
pub struct CompileUnit {
    pub items: Vec<Item>,
}

impl View for CompileUnit {
    type V = Seq<ItemView>;

    open spec fn view(&self) -> Seq<ItemView> {
        items_view(self.items@)
    }
}

} // verus!
