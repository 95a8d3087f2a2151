//! The choice of LLVM types for SysY types.
use crate::parser::ast::common::{SpecType, Type};
use core::marker::PhantomData;
use vstd::prelude::*;

verus! {

/// The kind of LLVM type that a SysY type is given.
#[derive(Debug, Clone, Copy, PartialEq, Eq, Structural)]
pub enum LlvmTypeKind {
    /// The empty packed struct, which stands for `void`.
    EmptyStruct,
    /// The 32-bit integer type.
    I32,
    /// An opaque pointer in the default address space: a function is
    /// passed around as one.
    Pointer,
}

/// The kind of LLVM type of a SysY type: `None` for the types that have
/// none yet (a named type other than `int`, a pointer), on which the
/// mapping stops the program.
pub open spec fn spec_llvm_kind(t: SpecType) -> Option<LlvmTypeKind> {
    match t {
        SpecType::Void => Some(LlvmTypeKind::EmptyStruct),
        SpecType::Simple(name) => if name == "int"@ {
            Some(LlvmTypeKind::I32)
        } else {
            None
        },
        SpecType::Pointer(_) => None,
        SpecType::Function(_, _) => Some(LlvmTypeKind::Pointer),
    }
}

/// Maps SysY types to LLVM types of one LLVM context.
#[derive(Debug)]
pub struct TypeMapper<'ctx> {
    _marker: PhantomData<&'ctx ()>,
}

impl<'ctx> TypeMapper<'ctx> {
    /// A type mapper.
    pub fn new() -> Self {
        Self { _marker: PhantomData }
    }

    /// The kind of LLVM type that the mapper gives a SysY type.
    pub fn llvm_kind(&self, sysy_type: &Type) -> (r: Option<LlvmTypeKind>)
        ensures
            r == spec_llvm_kind(sysy_type@),
    {
        match sysy_type {
            Type::Void => Some(LlvmTypeKind::EmptyStruct),
            Type::Simple(name) => {
                let int_name = String::from_str("int");
                proof {
                    reveal_strlit("int");
                }
                if *name == int_name {
                    Some(LlvmTypeKind::I32)
                } else {
                    None
                }
            },
            Type::Pointer(_) => None,
            Type::Function(_, _) => Some(LlvmTypeKind::Pointer),
        }
    }
}

impl<'ctx> Clone for TypeMapper<'ctx> {
    fn clone(&self) -> Self {
        Self { _marker: PhantomData }
    }
}

} // verus!
