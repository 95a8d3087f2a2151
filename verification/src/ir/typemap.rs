use crate::ir::program::{IrType, IrTypeView, ir_type_seq_view, lemma_ir_type_seq_view};
use crate::parser::ast::common::{SpecType, Type, lemma_type_seq_view, type_seq_view};
use vstd::prelude::*;

verus! {

/// The Koopa IR types of a list of SysY types, in order.
pub open spec fn spec_typemap_seq(ts: Seq<SpecType>) -> Seq<IrTypeView>
    decreases ts,
{
    if ts.len() == 0 {
        Seq::empty()
    } else {
        proof {
            assert(decreases_to!(ts => ts[ts.len() - 1]));
        }
        spec_typemap_seq(ts.drop_last()).push(spec_typemap(ts[ts.len() - 1]))
    }
}

/// The Koopa IR type of a SysY type: `void` is the unit type, every
/// named type is `i32`, pointers and functions map part by part.
pub open spec fn spec_typemap(t: SpecType) -> IrTypeView
    decreases t,
{
    match t {
        SpecType::Void => IrTypeView::Unit,
        SpecType::Simple(_) => IrTypeView::I32,
        SpecType::Pointer(b) => IrTypeView::Pointer(Box::new(spec_typemap(*b))),
        SpecType::Function(ps, r) => IrTypeView::Function(spec_typemap_seq(ps), Box::new(spec_typemap(*r))),
    }
}

pub proof fn lemma_spec_typemap_seq(ts: Seq<SpecType>)
    ensures
        spec_typemap_seq(ts).len() == ts.len(),
        forall|j: int| 0 <= j < ts.len() ==> #[trigger] spec_typemap_seq(ts)[j] == spec_typemap(ts[j]),
    decreases ts.len(),
{
    if ts.len() > 0 {
        lemma_spec_typemap_seq(ts.drop_last());
    }
}

/// Maps a SysY type to its Koopa IR type.
pub fn typemap(sysy_type: &Type) -> (r: IrType)
    ensures
        r@ == spec_typemap(sysy_type@),
    decreases sysy_type,
{
    match sysy_type {
        Type::Void => IrType::Unit,
        Type::Simple(_) => IrType::I32,
        Type::Pointer(b) => IrType::Pointer(Box::new(typemap(b))),
        Type::Function(ps, r) => {
            let mut out: Vec<IrType> = Vec::new();
            let mut i: usize = 0;
            while i < ps.len()
                invariant
                    *sysy_type == Type::Function(*ps, *r),
                    i <= ps@.len(),
                    out@.len() == i,
                    forall|j: int| 0 <= j < i ==> (#[trigger] out@[j])@ == spec_typemap((*ps@[j])@),
                decreases ps@.len() - i,
            {
                proof {
                    assert(decreases_to!(*sysy_type => (*sysy_type)->Function_0));
                    assert(decreases_to!(*ps => ps@));
                    assert(decreases_to!(ps@ => ps@[i as int]));
                }
                out.push(typemap(&ps[i]));
                i = i + 1;
            }
            let rt = typemap(r);
            proof {
                lemma_ir_type_seq_view(out@);
                lemma_type_seq_view(ps@);
                lemma_spec_typemap_seq(type_seq_view(ps@));
                assert(ir_type_seq_view(out@) =~= spec_typemap_seq(type_seq_view(ps@)));
            }
            IrType::Function(out, Box::new(rt))
        },
    }
}

} // verus!
