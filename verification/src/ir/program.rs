//! The Koopa IR program that the builder produces: a plain-value record of
//! the values, basic blocks and layouts of a Koopa program, in the order in
//! which the Koopa builders create them.
use vstd::prelude::*;

verus! {

/// A Koopa IR type.
#[derive(Debug)]
pub enum IrType {
    Unit,
    I32,
    Pointer(Box<IrType>),
    Function(Vec<IrType>, Box<IrType>),
}

/// The model of an [`IrType`].
pub enum IrTypeView {
    Unit,
    I32,
    Pointer(Box<IrTypeView>),
    Function(Seq<IrTypeView>, Box<IrTypeView>),
}

/// The models of a list of types, in order.
pub open spec fn ir_type_seq_view(ts: Seq<IrType>) -> Seq<IrTypeView>
    decreases ts,
{
    if ts.len() == 0 {
        Seq::empty()
    } else {
        proof {
            assert(decreases_to!(ts => ts[ts.len() - 1]));
        }
        ir_type_seq_view(ts.drop_last()).push(ir_type_view(ts[ts.len() - 1]))
    }
}

/// The model of a type.
pub open spec fn ir_type_view(t: IrType) -> IrTypeView
    decreases t,
{
    match t {
        IrType::Unit => IrTypeView::Unit,
        IrType::I32 => IrTypeView::I32,
        IrType::Pointer(b) => IrTypeView::Pointer(Box::new(ir_type_view(*b))),
        IrType::Function(ps, r) => {
            proof {
                assert(decreases_to!(ps => ps@));
            }
            IrTypeView::Function(ir_type_seq_view(ps@), Box::new(ir_type_view(*r)))
        },
    }
}

/// The model list has one entry per type, each its model.
pub proof fn lemma_ir_type_seq_view(ts: Seq<IrType>)
    ensures
        ir_type_seq_view(ts).len() == ts.len(),
        forall|j: int| 0 <= j < ts.len() ==> #[trigger] ir_type_seq_view(ts)[j] == ir_type_view(ts[j]),
    decreases ts.len(),
{
    if ts.len() > 0 {
        lemma_ir_type_seq_view(ts.drop_last());
    }
}

impl View for IrType {
    type V = IrTypeView;

    open spec fn view(&self) -> IrTypeView {
        ir_type_view(*self)
    }
}

impl IrType {
    /// A copy with the same model.
    pub fn duplicate(&self) -> (r: IrType)
        ensures
            r@ == self@,
        decreases self,
    {
        match self {
            IrType::Unit => IrType::Unit,
            IrType::I32 => IrType::I32,
            IrType::Pointer(b) => IrType::Pointer(Box::new((**b).duplicate())),
            IrType::Function(ps, r) => {
                let mut out: Vec<IrType> = Vec::new();
                let mut i: usize = 0;
                while i < ps.len()
                    invariant
                        *self == IrType::Function(*ps, *r),
                        i <= ps@.len(),
                        out@.len() == i,
                        forall|j: int| 0 <= j < i ==> ir_type_view(#[trigger] out@[j]) == ir_type_view(ps@[j]),
                    decreases ps@.len() - i,
                {
                    proof {
                        assert(decreases_to!(*self => (*self)->Function_0));
                        assert(decreases_to!(*ps => ps@));
                        assert(decreases_to!(ps@ => ps@[i as int]));
                    }
                    out.push(ps[i].duplicate());
                    i = i + 1;
                }
                let rt = (**r).duplicate();
                let res = IrType::Function(out, Box::new(rt));
                proof {
                    lemma_ir_type_seq_view(out@);
                    lemma_ir_type_seq_view(ps@);
                    assert(ir_type_seq_view(out@) =~= ir_type_seq_view(ps@));
                }
                res
            },
        }
    }
}

/// A binary operator of Koopa IR.
#[derive(Debug, Clone, Copy, PartialEq, Eq, Structural)]
pub enum IrBinaryOp {
    NotEq,
    Eq,
    Gt,
    Lt,
    Ge,
    Le,
    Add,
    Sub,
    Mul,
    Div,
    Mod,
}

/// What a Koopa IR binary instruction computes on two 32-bit integers:
/// the comparisons give 1 where they hold and 0 where they do not, `add`,
/// `sub` and `mul` wrap around on 32 bits, and `div` and `mod` divide
/// towards zero; nothing where the quotient is undefined (a zero divisor)
/// or does not fit in 32 bits.
pub open spec fn ir_binary_eval(op: IrBinaryOp, l: i32, r: i32) -> Option<i32> {
    match op {
        IrBinaryOp::NotEq => Some(if l != r { 1i32 } else { 0i32 }),
        IrBinaryOp::Eq => Some(if l == r { 1i32 } else { 0i32 }),
        IrBinaryOp::Gt => Some(if l > r { 1i32 } else { 0i32 }),
        IrBinaryOp::Lt => Some(if l < r { 1i32 } else { 0i32 }),
        IrBinaryOp::Ge => Some(if l >= r { 1i32 } else { 0i32 }),
        IrBinaryOp::Le => Some(if l <= r { 1i32 } else { 0i32 }),
        IrBinaryOp::Add => Some((l + r) as i32),
        IrBinaryOp::Sub => Some((l - r) as i32),
        IrBinaryOp::Mul => Some((l * r) as i32),
        IrBinaryOp::Div => l.checked_div(r),
        IrBinaryOp::Mod => l.checked_rem(r),
    }
}

/// A handle of a value: a global one of the program, or a local one of a
/// function, by the order of creation.
#[derive(Debug, Clone, Copy, PartialEq, Eq, Structural)]
pub enum Value {
    Global(usize),
    Local(usize),
}

/// A handle of a basic block of a function, by the order of creation.
#[derive(Debug, Clone, Copy, PartialEq, Eq, Structural)]
pub struct BasicBlock(pub usize);

/// A handle of a function of a program, by the order of creation.
#[derive(Debug, Clone, Copy, PartialEq, Eq, Structural)]
pub struct Function(pub usize);

/// What a value is.
#[derive(Debug)]
pub enum ValueKind {
    Integer(i32),
    ZeroInit(IrType),
    FuncArgRef(usize),
    GlobalAlloc(Value),
    Alloc(IrType),
    Load(Value),
    /// Stores the value to the destination.
    Store(Value, Value),
    Binary(IrBinaryOp, Value, Value),
    /// Condition, target if true, target if false.
    Branch(Value, BasicBlock, BasicBlock),
    Jump(BasicBlock),
    Call(Function, Vec<Value>),
    Return(Option<Value>),
}

/// A value that a function may refer to: a global of the program, or one
/// of its own values created before position `before`.
pub open spec fn value_ok(v: Value, before: nat, n_globals: nat) -> bool {
    match v {
        Value::Global(g) => g < n_globals,
        Value::Local(l) => l < before,
    }
}

/// The operands of a value are values created before it, blocks and
/// functions that exist.
pub open spec fn kind_ok(k: ValueKind, before: nat, n_globals: nat, n_bbs: nat, n_funcs: nat) -> bool {
    match k {
        ValueKind::Integer(_) => true,
        ValueKind::ZeroInit(_) => true,
        ValueKind::FuncArgRef(_) => true,
        ValueKind::GlobalAlloc(init) => value_ok(init, before, n_globals),
        ValueKind::Alloc(_) => true,
        ValueKind::Load(src) => value_ok(src, before, n_globals),
        ValueKind::Store(v, d) => value_ok(v, before, n_globals) && value_ok(d, before, n_globals),
        ValueKind::Binary(_, l, r) => value_ok(l, before, n_globals) && value_ok(r, before, n_globals),
        ValueKind::Branch(c, t, f) => value_ok(c, before, n_globals) && t.0 < n_bbs && f.0 < n_bbs,
        ValueKind::Jump(t) => t.0 < n_bbs,
        ValueKind::Call(func, args) => func.0 < n_funcs && forall|i: int| 0 <= i < args@.len() ==> value_ok(#[trigger] args@[i], before, n_globals),
        ValueKind::Return(v) => match v {
            Some(v) => value_ok(v, before, n_globals),
            None => true,
        },
    }
}

/// The integer that the `k`-th local value of a function computes where
/// it is an integer constant, or a binary instruction on earlier local
/// values that compute integers; nothing for any other value.
pub open spec fn const_value(fd: FunctionData, k: nat) -> Option<i32>
    decreases k,
{
    if k >= fd.values@.len() {
        None
    } else {
        match fd.values@[k as int] {
            ValueKind::Integer(i) => Some(i),
            ValueKind::Binary(op, x, y) => if x is Local && y is Local && x->Local_0 < k && y->Local_0 < k {
                match (const_value(fd, x->Local_0 as nat), const_value(fd, y->Local_0 as nat)) {
                    (Some(a), Some(b)) => ir_binary_eval(op, a, b),
                    _ => None,
                }
            } else {
                None
            },
            _ => None,
        }
    }
}

/// Whether the kind is a return.
pub open spec fn is_return(k: ValueKind) -> bool {
    k is Return
}

/// A function of the program.
#[derive(Debug)]
pub struct FunctionData {
    /// The name, with its `@` prefix.
    pub name: String,
    pub params_ty: Vec<IrType>,
    pub ret_ty: IrType,
    /// The values standing for the parameters.
    pub params: Vec<Value>,
    /// The local values, in the order of creation.
    pub values: Vec<ValueKind>,
    /// The names of the basic blocks, in the order of creation.
    pub bbs: Vec<Option<String>>,
    /// The basic blocks in layout order, each with its instructions in order.
    pub layout: Vec<(BasicBlock, Vec<Value>)>,
}

impl FunctionData {
    /// The position of a basic block in the layout, if it is there.
    pub open spec fn layout_pos(&self, bb: BasicBlock) -> Option<int> {
        if exists|i: int| 0 <= i < self.layout@.len() && self.layout@[i].0 == bb {
            Some(choose|i: int| 0 <= i < self.layout@.len() && self.layout@[i].0 == bb)
        } else {
            None
        }
    }

    /// Whether the basic block is in the layout.
    pub open spec fn in_layout(&self, bb: BasicBlock) -> bool {
        exists|i: int| 0 <= i < self.layout@.len() && self.layout@[i].0 == bb
    }

    /// The instructions of a basic block of the layout.
    pub open spec fn insts(&self, bb: BasicBlock) -> Seq<Value> {
        match self.layout_pos(bb) {
            Some(i) => self.layout@[i].1@,
            None => Seq::empty(),
        }
    }

    /// Well-formedness: handles refer to what exists, operands to values
    /// created before, no block is laid out twice, and no instruction is
    /// laid out twice, in one block or in two.
    pub open spec fn wf(&self, n_globals: nat, n_funcs: nat) -> bool {
        &&& forall|i: int| 0 <= i < self.params@.len() ==> value_ok(#[trigger] self.params@[i], self.values@.len(), n_globals)
        &&& forall|i: int| 0 <= i < self.values@.len() ==> kind_ok(#[trigger] self.values@[i], i as nat, n_globals, self.bbs@.len(), n_funcs)
        &&& forall|i: int| 0 <= i < self.layout@.len() ==> (#[trigger] self.layout@[i]).0.0 < self.bbs@.len()
        &&& forall|i: int, j: int| 0 <= i < j < self.layout@.len() ==> self.layout@[i].0 != self.layout@[j].0
        &&& forall|i: int, k: int| 0 <= i < self.layout@.len() && 0 <= k < self.layout@[i].1@.len()
            ==> (#[trigger] self.layout@[i].1@[k]) is Local && self.layout@[i].1@[k]->Local_0 < self.values@.len()
        &&& forall|i: int, k: int, m: int| 0 <= i < self.layout@.len() && 0 <= k < m < self.layout@[i].1@.len()
            ==> #[trigger] self.layout@[i].1@[k] != #[trigger] self.layout@[i].1@[m]
        &&& self.no_shared_insts()
    }

    /// No instruction is laid out in two blocks.
    #[verifier::opaque]
    pub open spec fn no_shared_insts(&self) -> bool {
        forall|i: int, j: int, k: int, m: int| 0 <= i < j < self.layout@.len() && 0 <= k < self.layout@[i].1@.len() && 0 <= m < self.layout@[j].1@.len()
            ==> #[trigger] self.layout@[i].1@[k] != #[trigger] self.layout@[j].1@[m]
    }

    /// No block is laid out twice.
    pub open spec fn wf_layout(&self) -> bool {
        forall|a: int, b: int| 0 <= a < b < self.layout@.len() ==> self.layout@[a].0 != self.layout@[b].0
    }

    /// Where the layout holds no block twice, a block's position is the one
    /// where it stands.
    pub proof fn lemma_layout_pos(&self, i: int)
        requires
            0 <= i < self.layout@.len(),
            forall|a: int, b: int| 0 <= a < b < self.layout@.len() ==> self.layout@[a].0 != self.layout@[b].0,
        ensures
            self.layout_pos(self.layout@[i].0) == Some(i),
            self.in_layout(self.layout@[i].0),
            self.insts(self.layout@[i].0) == self.layout@[i].1@,
    {
        let bb = self.layout@[i].0;
        assert(exists|j: int| 0 <= j < self.layout@.len() && self.layout@[j].0 == bb);
        let j = choose|j: int| 0 <= j < self.layout@.len() && self.layout@[j].0 == bb;
        if j != i {
            if j < i {
                assert(self.layout@[j].0 != self.layout@[i].0);
            } else {
                assert(self.layout@[i].0 != self.layout@[j].0);
            }
        }
    }

    /// A function definition with no blocks yet; each parameter is a value
    /// referring to its argument.
    pub fn new(name: String, params_ty: Vec<IrType>, ret_ty: IrType) -> (r: FunctionData)
        ensures
            r.name@ == name@,
            r.params_ty@ == params_ty@,
            r.ret_ty@ == ret_ty@,
            r.params@.len() == params_ty@.len(),
            r.values@.len() == params_ty@.len(),
            forall|i: int| 0 <= i < r.params@.len() ==> #[trigger] r.params@[i] == Value::Local(i as usize),
            forall|i: int| 0 <= i < r.values@.len() ==> #[trigger] r.values@[i] == ValueKind::FuncArgRef(i as usize),
            r.bbs@.len() == 0,
            r.layout@.len() == 0,
            forall|g: nat, f: nat| #[trigger] r.wf(g, f),
    {
        let mut params: Vec<Value> = Vec::new();
        let mut values: Vec<ValueKind> = Vec::new();
        let mut i: usize = 0;
        while i < params_ty.len()
            invariant
                i <= params_ty@.len(),
                params@.len() == i,
                values@.len() == i,
                forall|j: int| 0 <= j < i ==> #[trigger] params@[j] == Value::Local(j as usize),
                forall|j: int| 0 <= j < i ==> #[trigger] values@[j] == ValueKind::FuncArgRef(j as usize),
            decreases params_ty@.len() - i,
        {
            params.push(Value::Local(i));
            values.push(ValueKind::FuncArgRef(i));
            i = i + 1;
        }
        let r = FunctionData { name, params_ty, ret_ty, params, values, bbs: Vec::new(), layout: Vec::new() };
        assert(r.no_shared_insts()) by {
            reveal(FunctionData::no_shared_insts);
        }
        assert forall|g: nat, f: nat| #[trigger] r.wf(g, f) by {
            assert forall|i: int| 0 <= i < r.values@.len() implies kind_ok(#[trigger] r.values@[i], i as nat, g, r.bbs@.len(), f) by {
                assert(r.values@[i] == ValueKind::FuncArgRef(i as usize));
            }
        }
        r
    }

    /// A function declaration: no parameter values and no blocks.
    pub fn new_decl(name: String, params_ty: Vec<IrType>, ret_ty: IrType) -> (r: FunctionData)
        ensures
            r.name@ == name@,
            r.params_ty@ == params_ty@,
            r.ret_ty@ == ret_ty@,
            r.params@.len() == 0,
            r.values@.len() == 0,
            r.bbs@.len() == 0,
            r.layout@.len() == 0,
            forall|g: nat, f: nat| #[trigger] r.wf(g, f),
    {
        let r = FunctionData {
            name,
            params_ty,
            ret_ty,
            params: Vec::new(),
            values: Vec::new(),
            bbs: Vec::new(),
            layout: Vec::new(),
        };
        assert(r.no_shared_insts()) by {
            reveal(FunctionData::no_shared_insts);
        }
        assert forall|g: nat, f: nat| #[trigger] r.wf(g, f) by {}
        r
    }

    /// Well-formedness with some globals and functions holds with more.
    pub proof fn lemma_wf_mono(&self, g: nat, f: nat, g2: nat, f2: nat)
        requires
            self.wf(g, f),
            g <= g2,
            f <= f2,
        ensures
            self.wf(g2, f2),
    {
        assert forall|i: int| 0 <= i < self.params@.len() implies value_ok(#[trigger] self.params@[i], self.values@.len(), g2) by {
            assert(value_ok(self.params@[i], self.values@.len(), g));
        }
        assert forall|i: int| 0 <= i < self.values@.len() implies kind_ok(#[trigger] self.values@[i], i as nat, g2, self.bbs@.len(), f2) by {
            assert(kind_ok(self.values@[i], i as nat, g, self.bbs@.len(), f));
            match self.values@[i] {
                ValueKind::Call(func, args) => {
                    assert forall|j: int| 0 <= j < args@.len() implies value_ok(#[trigger] args@[j], i as nat, g2) by {
                        assert(value_ok(args@[j], i as nat, g));
                    }
                },
                _ => {},
            }
        }
    }

    /// Creates a local value.
    pub fn new_value(&mut self, kind: ValueKind) -> (r: Value)
        ensures
            r is Local && r->Local_0 == old(self).values@.len(),
            final(self).values@ == old(self).values@.push(kind),
            final(self).bbs@ == old(self).bbs@,
            final(self).layout@ == old(self).layout@,
            final(self).params@ == old(self).params@,
            final(self).name == old(self).name,
            final(self).params_ty == old(self).params_ty,
            final(self).ret_ty == old(self).ret_ty,
    {
        let r = Value::Local(self.values.len());
        self.values.push(kind);
        r
    }

    /// Creates a basic block, not laid out yet.
    pub fn new_bb(&mut self, name: Option<String>) -> (r: BasicBlock)
        ensures
            r.0 == old(self).bbs@.len(),
            final(self).bbs@ == old(self).bbs@.push(name),
            final(self).values@ == old(self).values@,
            final(self).layout@ == old(self).layout@,
            final(self).params@ == old(self).params@,
            final(self).name == old(self).name,
            final(self).params_ty == old(self).params_ty,
            final(self).ret_ty == old(self).ret_ty,
    {
        let r = BasicBlock(self.bbs.len());
        self.bbs.push(name);
        r
    }

    /// Lays a basic block out after the others, with no instructions.
    pub fn add_bb(&mut self, bb: BasicBlock)
        requires
            !old(self).in_layout(bb),
        ensures
            final(self).layout@.len() == old(self).layout@.len() + 1,
            final(self).layout@.drop_last() == old(self).layout@,
            final(self).layout@.last().0 == bb,
            final(self).layout@.last().1@.len() == 0,
            final(self).values@ == old(self).values@,
            final(self).bbs@ == old(self).bbs@,
            final(self).params@ == old(self).params@,
            final(self).name == old(self).name,
            final(self).params_ty == old(self).params_ty,
            final(self).ret_ty == old(self).ret_ty,
    {
        self.layout.push((bb, Vec::new()));
    }

    /// The position of a basic block in the layout.
    pub fn find_bb(&self, bb: BasicBlock) -> (r: Option<usize>)
        ensures
            r matches Some(i) ==> i < self.layout@.len() && self.layout@[i as int].0 == bb,
            r is None ==> !self.in_layout(bb),
    {
        let mut i: usize = 0;
        while i < self.layout.len()
            invariant
                i <= self.layout@.len(),
                forall|j: int| 0 <= j < i ==> self.layout@[j].0 != bb,
            decreases self.layout@.len() - i,
        {
            if self.layout[i].0 == bb {
                return Some(i);
            }
            i = i + 1;
        }
        None
    }

    /// Appends an instruction to a basic block of the layout.
    pub fn add_instr(&mut self, bb: BasicBlock, inst: Value)
        requires
            old(self).in_layout(bb),
            !old(self).insts(bb).contains(inst),
            forall|a: int, b: int| 0 <= a < b < old(self).layout@.len() ==> old(self).layout@[a].0 != old(self).layout@[b].0,
        ensures
            final(self).layout@.len() == old(self).layout@.len(),
            forall|i: int| 0 <= i < old(self).layout@.len() ==> (#[trigger] final(self).layout@[i]).0 == old(self).layout@[i].0,
            forall|i: int| 0 <= i < old(self).layout@.len() && old(self).layout@[i].0 != bb ==> (#[trigger] final(self).layout@[i]).1@ == old(self).layout@[i].1@,
            final(self).insts(bb) == old(self).insts(bb).push(inst),
            final(self).values@ == old(self).values@,
            final(self).bbs@ == old(self).bbs@,
            final(self).params@ == old(self).params@,
            final(self).name == old(self).name,
            final(self).params_ty == old(self).params_ty,
            final(self).ret_ty == old(self).ret_ty,
    {
        let pos = self.find_bb(bb);
        let i = match pos {
            Some(i) => i,
            None => {
                proof {
                    assert(false);
                }
                0
            },
        };
        proof {
            self.lemma_layout_pos(i as int);
        }
        let ghost old_self = *self;
        self.layout[i].1.push(inst);
        proof {
            assert forall|a: int, b: int| 0 <= a < b < self.layout@.len() implies self.layout@[a].0 != self.layout@[b].0 by {
                assert(self.layout@[a].0 == old_self.layout@[a].0);
                assert(self.layout@[b].0 == old_self.layout@[b].0);
            }
            self.lemma_layout_pos(i as int);
        }
    }

    /// Creates a value that is not laid out, keeping the function
    /// well-formed and within the frame.
    pub(crate) fn make_value(&mut self, kind: ValueKind, Ghost(g): Ghost<nat>, Ghost(f): Ghost<nat>, Ghost(base): Ghost<FunctionData>, Ghost(bb): Ghost<BasicBlock>) -> (r: Value)
        requires
            old(self).wf(g, f),
            kind_ok(kind, old(self).values@.len(), g, old(self).bbs@.len(), f),
            frame(base, *old(self), bb),
        ensures
            final(self).wf(g, f),
            frame(base, *final(self), bb),
            r is Local && r->Local_0 == old(self).values@.len(),
            final(self).values@ == old(self).values@.push(kind),
            final(self).bbs@ == old(self).bbs@,
            final(self).layout@ == old(self).layout@,
    {
        let r = self.new_value(kind);
        proof {
            let o = *old(self);
            assert forall|i: int| 0 <= i < self.values@.len() implies kind_ok(#[trigger] self.values@[i], i as nat, g, self.bbs@.len(), f) by {
                if i < o.values@.len() {
                    assert(self.values@[i] == o.values@[i]);
                }
            }
            assert forall|i: int| 0 <= i < base.values@.len() implies #[trigger] self.values@[i] == base.values@[i] by {
                assert(self.values@[i] == o.values@[i]);
            }
            assert(self.layout@ == o.layout@);
            assert(self.no_shared_insts()) by {
                reveal(FunctionData::no_shared_insts);
            }
            assert(base.values@.len() <= self.values@.len());
            assert(base.bbs@.len() <= self.bbs@.len());
            assert(base.layout@.len() <= self.layout@.len());
            assert(self.params@ == base.params@);
            assert(self.name == base.name);
            assert(self.params_ty == base.params_ty);
            assert(self.ret_ty == base.ret_ty);
        }
        r
    }

    /// Creates a basic block with the given name and lays it out last.
    pub(crate) fn make_block(&mut self, name: String, Ghost(g): Ghost<nat>, Ghost(f): Ghost<nat>, Ghost(base): Ghost<FunctionData>, Ghost(bb): Ghost<BasicBlock>) -> (r: BasicBlock)
        requires
            old(self).wf(g, f),
            frame(base, *old(self), bb),
        ensures
            final(self).wf(g, f),
            frame(base, *final(self), bb),
            r.0 == old(self).bbs@.len(),
            final(self).bbs@ == old(self).bbs@.push(Some(name)),
            final(self).values@ == old(self).values@,
            final(self).layout@.len() == old(self).layout@.len() + 1,
            final(self).layout@.drop_last() == old(self).layout@,
            final(self).layout@.last().0 == r,
            final(self).in_layout(r),
            final(self).insts(r).len() == 0,
            forall|x: BasicBlock| x != r ==> #[trigger] final(self).insts(x) == old(self).insts(x),
            forall|x: BasicBlock| old(self).in_layout(x) ==> #[trigger] final(self).in_layout(x),
    {
        let r = self.new_bb(Some(name));
        proof {
            let o = *old(self);
            assert(self.layout@ == o.layout@);
            assert(!self.in_layout(r)) by {
                if self.in_layout(r) {
                    let i = choose|i: int| 0 <= i < self.layout@.len() && self.layout@[i].0 == r;
                    assert(self.layout@[i] == o.layout@[i]);
                    assert(o.layout@[i].0.0 < o.bbs@.len());
                }
            }
            assert forall|i: int| 0 <= i < self.values@.len() implies kind_ok(#[trigger] self.values@[i], i as nat, g, self.bbs@.len(), f) by {
                assert(kind_ok(o.values@[i], i as nat, g, o.bbs@.len(), f));
            }
        }
        self.add_bb(r);
        proof {
            let o = *old(self);
            let n = self.layout@.len();
            assert forall|i: int| 0 <= i < n - 1 implies #[trigger] self.layout@[i] == o.layout@[i] by {
                assert(self.layout@.drop_last()[i] == self.layout@[i]);
            }
            assert forall|a: int, b: int| 0 <= a < b < self.layout@.len() implies self.layout@[a].0 != self.layout@[b].0 by {
                if b == n - 1 {
                    assert(o.layout@[a].0.0 < o.bbs@.len());
                }
            }
            reveal(FunctionData::no_shared_insts);
            assert forall|i: int, j: int, k: int, m: int| 0 <= i < j < self.layout@.len() && 0 <= k < self.layout@[i].1@.len() && 0 <= m < self.layout@[j].1@.len()
                implies #[trigger] self.layout@[i].1@[k] != #[trigger] self.layout@[j].1@[m] by {
                assert(self.layout@[i] == o.layout@[i]);
                assert(self.layout@[j] == o.layout@[j]);
            }
            self.lemma_layout_pos(n - 1);
            assert forall|i: int| base.layout@.len() <= i < self.layout@.len() implies (#[trigger] self.layout@[i]).0.0 >= base.bbs@.len() by {
                if i < n - 1 {
                    assert(self.layout@[i] == o.layout@[i]);
                    assert(o.layout@[i].0.0 >= base.bbs@.len());
                }
            }
            assert forall|i: int| 0 <= i < base.values@.len() implies #[trigger] self.values@[i] == base.values@[i] by {
                assert(self.values@[i] == o.values@[i]);
            }
            assert forall|i: int| 0 <= i < base.layout@.len() implies (#[trigger] self.layout@[i]).0 == base.layout@[i].0 by {
                assert(self.layout@[i] == o.layout@[i]);
            }
            assert forall|i: int| 0 <= i < base.layout@.len() implies (#[trigger] self.layout@[i]).1@.len() >= base.layout@[i].1@.len() by {
                assert(self.layout@[i] == o.layout@[i]);
            }
            assert forall|i: int, k: int| 0 <= i < base.layout@.len() && 0 <= k < base.layout@[i].1@.len()
                implies (#[trigger] self.layout@[i].1@[k]) == base.layout@[i].1@[k] by {
                assert(self.layout@[i] == o.layout@[i]);
            }
            assert forall|i: int| 0 <= i < base.layout@.len() && base.layout@[i].0 != bb implies (#[trigger] self.layout@[i]).1@ == base.layout@[i].1@ by {
                assert(self.layout@[i] == o.layout@[i]);
            }
            assert forall|i: int, k: int| 0 <= i < self.layout@.len() && 0 <= k < self.layout@[i].1@.len()
                && (i >= base.layout@.len() || k >= base.layout@[i].1@.len()) implies fresh(#[trigger] self.layout@[i].1@[k], base.values@.len()) by {
                assert(i < n - 1);
                assert(self.layout@[i] == o.layout@[i]);
            }
            assert forall|x: BasicBlock| x != r implies #[trigger] self.insts(x) == o.insts(x) by {
                if o.in_layout(x) {
                    let q = choose|q: int| 0 <= q < o.layout@.len() && o.layout@[q].0 == x;
                    o.lemma_layout_pos(q);
                    assert(self.layout@[q] == o.layout@[q]);
                    self.lemma_layout_pos(q);
                } else if self.in_layout(x) {
                    let q = choose|q: int| 0 <= q < self.layout@.len() && self.layout@[q].0 == x;
                    if q < n - 1 {
                        assert(self.layout@[q] == o.layout@[q]);
                    }
                }
            }
            assert forall|x: BasicBlock| o.in_layout(x) implies #[trigger] self.in_layout(x) by {
                let q = choose|q: int| 0 <= q < o.layout@.len() && o.layout@[q].0 == x;
                assert(self.layout@[q] == o.layout@[q]);
            }
        }
        r
    }

    /// Appends an instruction to a block, keeping the function well-formed
    /// and within the frame.
    pub(crate) fn put_instr(&mut self, target: BasicBlock, inst: Value, Ghost(g): Ghost<nat>, Ghost(f): Ghost<nat>, Ghost(base): Ghost<FunctionData>, Ghost(bb): Ghost<BasicBlock>)
        requires
            old(self).wf(g, f),
            base.wf(g, f),
            frame(base, *old(self), bb),
            old(self).in_layout(target),
            target == bb || target.0 >= base.bbs@.len(),
            inst is Local,
            inst->Local_0 < old(self).values@.len(),
            fresh(inst, base.values@.len()),
            forall|i: int, k: int| 0 <= i < old(self).layout@.len() && 0 <= k < old(self).layout@[i].1@.len()
                ==> (#[trigger] old(self).layout@[i].1@[k]) != inst,
        ensures
            final(self).wf(g, f),
            frame(base, *final(self), bb),
            final(self).values@ == old(self).values@,
            final(self).bbs@ == old(self).bbs@,
            final(self).layout@.len() == old(self).layout@.len(),
            forall|i: int| 0 <= i < old(self).layout@.len() ==> (#[trigger] final(self).layout@[i]).0 == old(self).layout@[i].0,
            forall|i: int| 0 <= i < old(self).layout@.len() && old(self).layout@[i].0 != target ==> (#[trigger] final(self).layout@[i]).1@ == old(self).layout@[i].1@,
            final(self).insts(target) == old(self).insts(target).push(inst),
            final(self).in_layout(target),
            forall|x: BasicBlock| x != target ==> #[trigger] final(self).insts(x) == old(self).insts(x),
            forall|x: BasicBlock| old(self).in_layout(x) ==> #[trigger] final(self).in_layout(x),
    {
        let ghost o = *self;
        let pos = self.find_bb(target);
        let p = match pos {
            Some(p) => p,
            None => {
                proof {
                    assert(false);
                }
                0
            },
        };
        proof {
            o.lemma_layout_pos(p as int);
        }
        self.add_instr(target, inst);
        proof {
            assert(self.wf_layout()) by {
                assert forall|a: int, b: int| 0 <= a < b < self.layout@.len() implies self.layout@[a].0 != self.layout@[b].0 by {
                    assert(self.layout@[a].0 == o.layout@[a].0);
                    assert(self.layout@[b].0 == o.layout@[b].0);
                }
            }
            self.lemma_layout_pos(p as int);
            assert(self.layout@[p as int].1@ == o.layout@[p as int].1@.push(inst));
            assert forall|i: int| 0 <= i < self.layout@.len() implies (#[trigger] self.layout@[i]).0.0 < self.bbs@.len() by {
                assert(self.layout@[i].0 == o.layout@[i].0);
            }
            assert forall|i: int, k: int| 0 <= i < self.layout@.len() && 0 <= k < self.layout@[i].1@.len()
                implies (#[trigger] self.layout@[i].1@[k]) is Local && self.layout@[i].1@[k]->Local_0 < self.values@.len() by {
                if i != p {
                    assert(self.layout@[i].1@ == o.layout@[i].1@);
                } else if k < o.layout@[i].1@.len() {
                    assert(self.layout@[i].1@[k] == o.layout@[i].1@[k]);
                }
            }
            assert forall|i: int, k: int, m: int| 0 <= i < self.layout@.len() && 0 <= k < m < self.layout@[i].1@.len()
                implies #[trigger] self.layout@[i].1@[k] != #[trigger] self.layout@[i].1@[m] by {
                if i != p {
                    assert(self.layout@[i].1@ == o.layout@[i].1@);
                } else {
                    assert(self.layout@[i].1@[k] == o.layout@[i].1@[k]);
                    if m < o.layout@[i].1@.len() {
                        assert(self.layout@[i].1@[m] == o.layout@[i].1@[m]);
                    } else {
                        assert(o.layout@[i].1@[k] != inst);
                    }
                }
            }
            reveal(FunctionData::no_shared_insts);
            assert forall|i: int, j: int, k: int, m: int| 0 <= i < j < self.layout@.len() && 0 <= k < self.layout@[i].1@.len() && 0 <= m < self.layout@[j].1@.len()
                implies #[trigger] self.layout@[i].1@[k] != #[trigger] self.layout@[j].1@[m] by {
                if i != p && j != p {
                    assert(self.layout@[i].1@ == o.layout@[i].1@);
                    assert(self.layout@[j].1@ == o.layout@[j].1@);
                } else if i == p {
                    assert(self.layout@[j].1@ == o.layout@[j].1@);
                    if k < o.layout@[i].1@.len() {
                        assert(self.layout@[i].1@[k] == o.layout@[i].1@[k]);
                    } else {
                        assert(o.layout@[j].1@[m] != inst);
                    }
                } else {
                    assert(self.layout@[i].1@ == o.layout@[i].1@);
                    if m < o.layout@[j].1@.len() {
                        assert(self.layout@[j].1@[m] == o.layout@[j].1@[m]);
                    } else {
                        assert(o.layout@[i].1@[k] != inst);
                    }
                }
            }
            assert forall|i: int| 0 <= i < base.layout@.len() implies (#[trigger] self.layout@[i]).1@.len() >= base.layout@[i].1@.len() by {
                assert(o.layout@[i].1@.len() >= base.layout@[i].1@.len());
            }
            assert forall|i: int, k: int| 0 <= i < base.layout@.len() && 0 <= k < base.layout@[i].1@.len()
                implies (#[trigger] self.layout@[i].1@[k]) == base.layout@[i].1@[k] by {
                assert(o.layout@[i].1@[k] == base.layout@[i].1@[k]);
                if i == p {
                    assert(self.layout@[i].1@[k] == o.layout@[i].1@[k]);
                } else {
                    assert(self.layout@[i].1@ == o.layout@[i].1@);
                }
            }
            assert forall|i: int, k: int| 0 <= i < self.layout@.len() && 0 <= k < self.layout@[i].1@.len()
                && (i >= base.layout@.len() || k >= base.layout@[i].1@.len()) implies fresh(#[trigger] self.layout@[i].1@[k], base.values@.len()) by {
                if i != p {
                    assert(self.layout@[i].1@ == o.layout@[i].1@);
                } else if k < o.layout@[i].1@.len() {
                    assert(self.layout@[i].1@[k] == o.layout@[i].1@[k]);
                }
            }
            assert forall|i: int| base.layout@.len() <= i < self.layout@.len() implies (#[trigger] self.layout@[i]).0.0 >= base.bbs@.len() by {
                assert(self.layout@[i].0 == o.layout@[i].0);
            }
            assert forall|i: int| 0 <= i < base.layout@.len() && base.layout@[i].0 != bb implies (#[trigger] self.layout@[i]).1@ == base.layout@[i].1@ by {
                assert(o.layout@[i].1@ == base.layout@[i].1@);
                if i == p {
                    assert(o.layout@[i].0 == target);
                    assert(base.layout@[i].0 == o.layout@[i].0);
                    assert(base.layout@[i].0.0 < base.bbs@.len());
                }
            }
            assert forall|i: int| 0 <= i < base.values@.len() implies #[trigger] self.values@[i] == base.values@[i] by {
                assert(self.values@[i] == o.values@[i]);
            }
            assert forall|x: BasicBlock| x != target implies #[trigger] self.insts(x) == o.insts(x) by {
                if o.in_layout(x) {
                    let q = choose|q: int| 0 <= q < o.layout@.len() && o.layout@[q].0 == x;
                    o.lemma_layout_pos(q);
                    assert(self.layout@[q].0 == x);
                    self.lemma_layout_pos(q);
                } else {
                    if self.in_layout(x) {
                        let q = choose|q: int| 0 <= q < self.layout@.len() && self.layout@[q].0 == x;
                        assert(o.layout@[q].0 == x);
                    }
                }
            }
            assert forall|x: BasicBlock| o.in_layout(x) implies #[trigger] self.in_layout(x) by {
                let q = choose|q: int| 0 <= q < o.layout@.len() && o.layout@[q].0 == x;
                assert(self.layout@[q].0 == x);
            }
        }
    }

    /// In a well-formed function every instruction of a block is a value of
    /// the function.
    pub proof fn lemma_insts_bounded(&self, g: nat, f: nat, bb: BasicBlock)
        requires
            self.wf(g, f),
        ensures
            forall|k: int| 0 <= k < self.insts(bb).len() ==> (#[trigger] self.insts(bb)[k]) is Local && self.insts(bb)[k]->Local_0 < self.values@.len(),
    {
        if self.in_layout(bb) {
            let i = choose|i: int| 0 <= i < self.layout@.len() && self.layout@[i].0 == bb;
            self.lemma_layout_pos(i);
        }
    }

    /// Creates a value and appends it to a block, keeping the function
    /// well-formed and within the frame.
    pub(crate) fn emit(&mut self, kind: ValueKind, target: BasicBlock, Ghost(g): Ghost<nat>, Ghost(f): Ghost<nat>, Ghost(base): Ghost<FunctionData>, Ghost(bb): Ghost<BasicBlock>) -> (r: Value)
        requires
            old(self).wf(g, f),
            base.wf(g, f),
            frame(base, *old(self), bb),
            kind_ok(kind, old(self).values@.len(), g, old(self).bbs@.len(), f),
            old(self).in_layout(target),
            target == bb || target.0 >= base.bbs@.len(),
        ensures
            final(self).wf(g, f),
            frame(base, *final(self), bb),
            r is Local && r->Local_0 == old(self).values@.len(),
            final(self).values@ == old(self).values@.push(kind),
            final(self).bbs@ == old(self).bbs@,
            final(self).layout@.len() == old(self).layout@.len(),
            forall|i: int| 0 <= i < old(self).layout@.len() ==> (#[trigger] final(self).layout@[i]).0 == old(self).layout@[i].0,
            forall|i: int| 0 <= i < old(self).layout@.len() && old(self).layout@[i].0 != target ==> (#[trigger] final(self).layout@[i]).1@ == old(self).layout@[i].1@,
            final(self).insts(target) == old(self).insts(target).push(r),
            final(self).in_layout(target),
            forall|x: BasicBlock| x != target ==> #[trigger] final(self).insts(x) == old(self).insts(x),
            forall|x: BasicBlock| old(self).in_layout(x) ==> #[trigger] final(self).in_layout(x),
    {
        let v = self.make_value(kind, Ghost(g), Ghost(f), Ghost(base), Ghost(bb));
        proof {
            let o = *old(self);
            o.lemma_insts_bounded(g, f, target);
            assert(self.layout@ == o.layout@);
            assert(self.insts(target) == o.insts(target));
            assert forall|i: int, k: int| 0 <= i < self.layout@.len() && 0 <= k < self.layout@[i].1@.len()
                implies (#[trigger] self.layout@[i].1@[k]) != v by {
                assert(o.layout@[i].1@[k]->Local_0 < o.values@.len());
            }
        }
        self.put_instr(target, v, Ghost(g), Ghost(f), Ghost(base), Ghost(bb));
        v
    }

    /// The last instruction of a basic block of the layout, if it has one.
    pub fn last_instr(&self, bb: BasicBlock) -> (r: Option<&ValueKind>)
        requires
            self.in_layout(bb),
            forall|a: int, b: int| 0 <= a < b < self.layout@.len() ==> self.layout@[a].0 != self.layout@[b].0,
            forall|i: int, k: int| 0 <= i < self.layout@.len() && 0 <= k < self.layout@[i].1@.len()
                ==> (#[trigger] self.layout@[i].1@[k]) is Local && self.layout@[i].1@[k]->Local_0 < self.values@.len(),
        ensures
            self.insts(bb).len() == 0 ==> r is None,
            self.insts(bb).len() > 0 ==> (r matches Some(k) && *k == self.values@[self.insts(bb).last()->Local_0 as int]),
    {
        let i = match self.find_bb(bb) {
            Some(i) => i,
            None => {
                proof {
                    assert(false);
                }
                0
            },
        };
        proof {
            self.lemma_layout_pos(i as int);
        }
        let n = self.layout[i].1.len();
        if n == 0 {
            None
        } else {
            match self.layout[i].1[n - 1] {
                Value::Local(v) => Some(&self.values[v]),
                Value::Global(_) => {
                    proof {
                        assert(false);
                    }
                    None
                },
            }
        }
    }
}

/// A value created at or after position `n`.
pub open spec fn fresh(v: Value, n: nat) -> bool {
    v is Local && v->Local_0 >= n
}

/// `b` is `a` with more: values and blocks are only added, blocks laid out
/// only after the others, and instructions only appended, all of them
/// values created after `a`; laid out blocks are new ones.
pub open spec fn grows(a: FunctionData, b: FunctionData) -> bool {
    &&& a.values@.len() <= b.values@.len()
    &&& forall|i: int| 0 <= i < a.values@.len() ==> #[trigger] b.values@[i] == a.values@[i]
    &&& a.bbs@.len() <= b.bbs@.len()
    &&& a.layout@.len() <= b.layout@.len()
    &&& forall|i: int| 0 <= i < a.layout@.len() ==> (#[trigger] b.layout@[i]).0 == a.layout@[i].0
    &&& forall|i: int| 0 <= i < a.layout@.len() ==> (#[trigger] b.layout@[i]).1@.len() >= a.layout@[i].1@.len()
    &&& forall|i: int, k: int| 0 <= i < a.layout@.len() && 0 <= k < a.layout@[i].1@.len()
        ==> (#[trigger] b.layout@[i].1@[k]) == a.layout@[i].1@[k]
    &&& forall|i: int, k: int| 0 <= i < b.layout@.len() && 0 <= k < b.layout@[i].1@.len()
        && (i >= a.layout@.len() || k >= a.layout@[i].1@.len()) ==> fresh(#[trigger] b.layout@[i].1@[k], a.values@.len())
    &&& forall|i: int| a.layout@.len() <= i < b.layout@.len() ==> (#[trigger] b.layout@[i]).0.0 >= a.bbs@.len()
    &&& b.params@ == a.params@
    &&& b.name == a.name
    &&& b.params_ty == a.params_ty
    &&& b.ret_ty == a.ret_ty
}

/// `b` grows from `a`, and only the block `bb` among those laid out in `a`
/// got instructions.
pub open spec fn frame(a: FunctionData, b: FunctionData, bb: BasicBlock) -> bool {
    &&& grows(a, b)
    &&& forall|i: int| 0 <= i < a.layout@.len() && a.layout@[i].0 != bb ==> (#[trigger] b.layout@[i]).1@ == a.layout@[i].1@
}

pub proof fn lemma_frame_refl(a: FunctionData, bb: BasicBlock)
    ensures
        grows(a, a),
        frame(a, a, bb),
{
}

/// A block laid out stays laid out.
pub proof fn lemma_grows_in_layout(a: FunctionData, b: FunctionData, x: BasicBlock)
    requires
        grows(a, b),
        a.in_layout(x),
    ensures
        b.in_layout(x),
{
    let i = choose|i: int| 0 <= i < a.layout@.len() && a.layout@[i].0 == x;
    assert(b.layout@[i].0 == x);
}

/// Outside the block of a frame, the blocks laid out before keep their
/// instructions.
pub proof fn lemma_frame_insts(a: FunctionData, b: FunctionData, bb: BasicBlock, x: BasicBlock)
    requires
        frame(a, b, bb),
        a.wf_layout(),
        b.wf_layout(),
        a.in_layout(x),
        x != bb,
    ensures
        b.insts(x) == a.insts(x),
        b.in_layout(x),
{
    let q = choose|q: int| 0 <= q < a.layout@.len() && a.layout@[q].0 == x;
    a.lemma_layout_pos(q);
    assert(b.layout@[q].0 == x);
    b.lemma_layout_pos(q);
}

/// A block that is not laid out has no instructions.
pub proof fn lemma_not_laid_out(a: FunctionData, x: BasicBlock)
    requires
        forall|i: int| 0 <= i < a.layout@.len() ==> (#[trigger] a.layout@[i]).0.0 < a.bbs@.len(),
        x.0 >= a.bbs@.len(),
    ensures
        !a.in_layout(x),
        a.insts(x).len() == 0,
{
    if a.in_layout(x) {
        let q = choose|q: int| 0 <= q < a.layout@.len() && a.layout@[q].0 == x;
        assert(a.layout@[q].0.0 < a.bbs@.len());
    }
}

pub proof fn lemma_grows_trans(a: FunctionData, b: FunctionData, c: FunctionData)
    requires
        grows(a, b),
        grows(b, c),
    ensures
        grows(a, c),
{
    assert forall|i: int, k: int| 0 <= i < c.layout@.len() && 0 <= k < c.layout@[i].1@.len()
        && (i >= a.layout@.len() || k >= a.layout@[i].1@.len()) implies fresh(#[trigger] c.layout@[i].1@[k], a.values@.len()) by {
        if i < b.layout@.len() && k < b.layout@[i].1@.len() {
            assert(c.layout@[i].1@[k] == b.layout@[i].1@[k]);
        }
    }
}

pub proof fn lemma_frame_trans(a: FunctionData, b: FunctionData, c: FunctionData, bb: BasicBlock)
    requires
        frame(a, b, bb),
        frame(b, c, bb),
    ensures
        frame(a, c, bb),
{
    lemma_grows_trans(a, b, c);
}

/// A frame around a block that is new since `a` is a frame around any
/// block of `a`.
pub proof fn lemma_frame_new_block(a: FunctionData, b: FunctionData, c: FunctionData, bb: BasicBlock, nb: BasicBlock)
    requires
        frame(a, b, bb),
        frame(b, c, nb),
        nb == bb || nb.0 >= a.bbs@.len(),
        forall|i: int| 0 <= i < a.layout@.len() ==> (#[trigger] a.layout@[i]).0.0 < a.bbs@.len(),
    ensures
        frame(a, c, bb),
{
    lemma_grows_trans(a, b, c);
    assert forall|i: int| 0 <= i < a.layout@.len() && a.layout@[i].0 != bb implies (#[trigger] c.layout@[i]).1@ == a.layout@[i].1@ by {
        assert(a.layout@[i].0.0 < a.bbs@.len());
        assert(b.layout@[i].0 == a.layout@[i].0);
    }
}

/// An instruction created before `a`, not in a block of `a`, is not in it in
/// any growth of `a` either.
pub proof fn lemma_grows_not_in(a: FunctionData, b: FunctionData, bb: BasicBlock, j: Value)
    requires
        grows(a, b),
        a.wf_layout(),
        b.wf_layout(),
        j is Local,
        j->Local_0 < a.values@.len(),
        !a.insts(bb).contains(j),
    ensures
        !b.insts(bb).contains(j),
{
    if b.in_layout(bb) {
        let i = choose|i: int| 0 <= i < b.layout@.len() && b.layout@[i].0 == bb;
        b.lemma_layout_pos(i);
        if i < a.layout@.len() {
            a.lemma_layout_pos(i);
            assert(a.layout@[i].0 == bb);
            if b.layout@[i].1@.contains(j) {
                let k = choose|k: int| 0 <= k < b.layout@[i].1@.len() && b.layout@[i].1@[k] == j;
                if k < a.layout@[i].1@.len() {
                    assert(a.layout@[i].1@[k] == j);
                    assert(a.insts(bb).contains(j));
                } else {
                    assert(fresh(b.layout@[i].1@[k], a.values@.len()));
                }
            }
        } else {
            if b.layout@[i].1@.contains(j) {
                let k = choose|k: int| 0 <= k < b.layout@[i].1@.len() && b.layout@[i].1@[k] == j;
                assert(fresh(b.layout@[i].1@[k], a.values@.len()));
            }
        }
    }
}

/// Whether the instruction is one that ends a basic block.
pub open spec fn ends_block(k: ValueKind) -> bool {
    k is Jump || k is Return || k is Branch
}

/// Whether the instruction is one that ends a basic block.
pub fn is_jump(instr: &ValueKind) -> (r: bool)
    ensures
        r == ends_block(*instr),
{
    match instr {
        ValueKind::Jump(_) | ValueKind::Return(_) | ValueKind::Branch(_, _, _) => true,
        _ => false,
    }
}

/// A Koopa IR program: its global values and its functions.
#[derive(Debug)]
pub struct Program {
    /// The global values in the order of creation, with their names.
    pub values: Vec<(ValueKind, Option<String>)>,
    /// The functions in the order of creation.
    pub funcs: Vec<FunctionData>,
}

impl Program {
    /// Well-formedness: every global refers to globals created before it,
    /// and every function is well-formed.
    pub open spec fn wf(&self) -> bool {
        &&& forall|i: int| 0 <= i < self.values@.len() ==> kind_ok((#[trigger] self.values@[i]).0, 0, i as nat, 0, 0)
        &&& forall|i: int| 0 <= i < self.funcs@.len() ==> (#[trigger] self.funcs@[i]).wf(self.values@.len(), self.funcs@.len())
    }

    /// Functions well-formed with fewer globals and functions stay
    /// well-formed with more.
    pub proof fn lemma_funcs_mono(&self, g2: nat, f2: nat)
        requires
            forall|i: int| 0 <= i < self.funcs@.len() ==> (#[trigger] self.funcs@[i]).wf(self.values@.len(), self.funcs@.len()),
            self.values@.len() <= g2,
            self.funcs@.len() <= f2,
        ensures
            forall|i: int| 0 <= i < self.funcs@.len() ==> (#[trigger] self.funcs@[i]).wf(g2, f2),
    {
        assert forall|i: int| 0 <= i < self.funcs@.len() implies (#[trigger] self.funcs@[i]).wf(g2, f2) by {
            self.funcs@[i].lemma_wf_mono(self.values@.len(), self.funcs@.len(), g2, f2);
        }
    }

    /// An empty program.
    pub fn new() -> (r: Program)
        ensures
            r.values@.len() == 0,
            r.funcs@.len() == 0,
            r.wf(),
    {
        Program { values: Vec::new(), funcs: Vec::new() }
    }

    /// Creates a global value.
    pub fn new_value(&mut self, kind: ValueKind) -> (r: Value)
        ensures
            r is Global && r->Global_0 == old(self).values@.len(),
            final(self).values@ == old(self).values@.push((kind, None)),
            final(self).funcs@ == old(self).funcs@,
    {
        let r = Value::Global(self.values.len());
        self.values.push((kind, None));
        r
    }

    /// Names a global value.
    pub fn set_value_name(&mut self, value: Value, name: Option<String>)
        requires
            value matches Value::Global(g) && g < old(self).values@.len(),
        ensures
            final(self).values@ == old(self).values@.update(value->Global_0 as int, (old(self).values@[value->Global_0 as int].0, name)),
            final(self).funcs@ == old(self).funcs@,
    {
        let g = match value {
            Value::Global(g) => g,
            Value::Local(_) => {
                proof {
                    assert(false);
                }
                0
            },
        };
        let ghost before = self.values@;
        let mut entry = self.values.remove(g);
        entry.1 = name;
        self.values.insert(g, entry);
        assert(self.values@ =~= before.update(g as int, (before[g as int].0, name)));
    }

    /// Adds a function.
    pub fn new_func(&mut self, data: FunctionData) -> (r: Function)
        ensures
            r.0 == old(self).funcs@.len(),
            final(self).funcs@ == old(self).funcs@.push(data),
            final(self).values@ == old(self).values@,
    {
        let r = Function(self.funcs.len());
        self.funcs.push(data);
        r
    }
}

} // verus!
