use crate::parser::ast::common::{Identifier, IdentifierView, SpecType, Type};
use crate::parser::ast::expression::{ExprView, Expression};
use vstd::prelude::*;

verus! {

/// A statement of SysY.
#[non_exhaustive]
#[derive(Debug)]
pub enum Statement {
    Return(Expression),
    ConstDecl(Vec<(Type, Identifier, Expression)>),
    VarDecl(Vec<(Type, Identifier, Option<Expression>)>),
    Assign(Identifier, Expression),
    Expression(Option<Expression>),
    Block(Vec<Box<Statement>>),
    /// Condition, then branch, else branch.
    If(Expression, Box<Statement>, Option<Box<Statement>>),
    /// Condition, body.
    While(Expression, Box<Statement>),
    Break,
    Continue,
}

/// The mathematical model of a [`Statement`].
pub enum StmtView {
    Return(ExprView),
    ConstDecl(Seq<(SpecType, IdentifierView, ExprView)>),
    VarDecl(Seq<(SpecType, IdentifierView, Option<ExprView>)>),
    Assign(IdentifierView, ExprView),
    Expression(Option<ExprView>),
    Block(Seq<StmtView>),
    If(ExprView, Box<StmtView>, Option<Box<StmtView>>),
    While(ExprView, Box<StmtView>),
    Break,
    Continue,
}

/// The model of an optional expression.
pub open spec fn opt_expr_view(e: Option<Expression>) -> Option<ExprView> {
    match e {
        Some(e) => Some(e@),
        None => None,
    }
}

/// The models of the entries of a constant declaration.
pub open spec fn const_decl_view(v: Seq<(Type, Identifier, Expression)>) -> Seq<(SpecType, IdentifierView, ExprView)> {
    Seq::new(v.len(), |i: int| (v[i].0@, v[i].1@, v[i].2@))
}

/// The models of the entries of a variable declaration.
pub open spec fn var_decl_view(v: Seq<(Type, Identifier, Option<Expression>)>) -> Seq<(SpecType, IdentifierView, Option<ExprView>)> {
    Seq::new(v.len(), |i: int| (v[i].0@, v[i].1@, opt_expr_view(v[i].2)))
}

/// The models of a list of statements, in order.
pub open spec fn stmt_seq_view(ss: Seq<Box<Statement>>) -> Seq<StmtView>
    decreases ss,
{
    if ss.len() == 0 {
        Seq::empty()
    } else {
        proof {
            assert(decreases_to!(ss => ss[ss.len() - 1]));
        }
        stmt_seq_view(ss.drop_last()).push(stmt_view(*ss[ss.len() - 1]))
    }
}

/// The model of a statement.
pub open spec fn stmt_view(s: Statement) -> StmtView
    decreases s,
{
    match s {
        Statement::Return(e) => StmtView::Return(e@),
        Statement::ConstDecl(v) => StmtView::ConstDecl(const_decl_view(v@)),
        Statement::VarDecl(v) => StmtView::VarDecl(var_decl_view(v@)),
        Statement::Assign(id, e) => StmtView::Assign(id@, e@),
        Statement::Expression(e) => StmtView::Expression(opt_expr_view(e)),
        Statement::Block(ss) => {
            proof {
                assert(decreases_to!(ss => ss@));
            }
            StmtView::Block(stmt_seq_view(ss@))
        },
        Statement::If(c, t, e) => StmtView::If(
            c@,
            Box::new(stmt_view(*t)),
            match e {
                Some(b) => Some(Box::new(stmt_view(*b))),
                None => None,
            },
        ),
        Statement::While(c, b) => StmtView::While(c@, Box::new(stmt_view(*b))),
        Statement::Break => StmtView::Break,
        Statement::Continue => StmtView::Continue,
    }
}

/// The model list has one entry per statement, each its model.
pub proof fn lemma_stmt_seq_view(ss: Seq<Box<Statement>>)
    ensures
        stmt_seq_view(ss).len() == ss.len(),
        forall|j: int| 0 <= j < ss.len() ==> #[trigger] stmt_seq_view(ss)[j] == stmt_view(*ss[j]),
    decreases ss.len(),
{
    if ss.len() > 0 {
        lemma_stmt_seq_view(ss.drop_last());
    }
}

impl View for Statement {
    type V = StmtView;

    open spec fn view(&self) -> StmtView {
        stmt_view(*self)
    }
}

} // verus!
