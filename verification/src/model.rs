//! A plain-value model of the parts of a SPIR-V module that the float-control
//! passes read and write.

use vstd::prelude::*;

verus! {

/// One operand of an instruction.
///
/// The operand kinds that the passes inspect are kept with their values;
/// enumerants are held by their numeric SPIR-V value.  Every other operand is
/// `Other`, whose index identifies it: two `Other` operands are the same
/// operand exactly when their indices are equal.
#[derive(Debug, PartialEq, Eq)]
pub enum Operand {
    IdRef(u32),
    LiteralBit32(u32),
    LiteralString(String),
    ExecutionModel(u32),
    ExecutionMode(u32),
    Capability(u32),
    Decoration(u32),
    Other(u32),
}

/// The mathematical value of an [`Operand`].
pub enum OperandView {
    IdRef(u32),
    LiteralBit32(u32),
    LiteralString(Seq<char>),
    ExecutionModel(u32),
    ExecutionMode(u32),
    Capability(u32),
    Decoration(u32),
    Other(u32),
}

impl View for Operand {
    type V = OperandView;

    open spec fn view(&self) -> OperandView {
        match self {
            Operand::IdRef(x) => OperandView::IdRef(*x),
            Operand::LiteralBit32(x) => OperandView::LiteralBit32(*x),
            Operand::LiteralString(s) => OperandView::LiteralString(s@),
            Operand::ExecutionModel(x) => OperandView::ExecutionModel(*x),
            Operand::ExecutionMode(x) => OperandView::ExecutionMode(*x),
            Operand::Capability(x) => OperandView::Capability(*x),
            Operand::Decoration(x) => OperandView::Decoration(*x),
            Operand::Other(x) => OperandView::Other(*x),
        }
    }
}

impl Operand {
    /// Whether two operands are the same operand.
    pub fn equals(&self, other: &Operand) -> (r: bool)
        ensures
            r == (self@ == other@),
    {
        match (self, other) {
            (Operand::IdRef(a), Operand::IdRef(b)) => *a == *b,
            (Operand::LiteralBit32(a), Operand::LiteralBit32(b)) => *a == *b,
            (Operand::LiteralString(a), Operand::LiteralString(b)) => *a == *b,
            (Operand::ExecutionModel(a), Operand::ExecutionModel(b)) => *a == *b,
            (Operand::ExecutionMode(a), Operand::ExecutionMode(b)) => *a == *b,
            (Operand::Capability(a), Operand::Capability(b)) => *a == *b,
            (Operand::Decoration(a), Operand::Decoration(b)) => *a == *b,
            (Operand::Other(a), Operand::Other(b)) => *a == *b,
            _ => false,
        }
    }
}


/// One instruction: its opcode, its result type and result id where it has
/// them, and its operands.
#[derive(Debug, PartialEq, Eq)]
pub struct Instruction {
    pub opcode: u32,
    pub result_type: Option<u32>,
    pub result_id: Option<u32>,
    pub operands: Vec<Operand>,
}

/// The mathematical value of an [`Instruction`].
pub struct InstructionView {
    pub opcode: u32,
    pub result_type: Option<u32>,
    pub result_id: Option<u32>,
    pub operands: Seq<OperandView>,
}

/// The values of a sequence of operands.
pub open spec fn operands_view(ops: Seq<Operand>) -> Seq<OperandView> {
    ops.map_values(|o: Operand| o@)
}

impl View for Instruction {
    type V = InstructionView;

    open spec fn view(&self) -> InstructionView {
        InstructionView {
            opcode: self.opcode,
            result_type: self.result_type,
            result_id: self.result_id,
            operands: operands_view(self.operands@),
        }
    }
}

/// The values of a sequence of instructions.
pub open spec fn insts_view(insts: Seq<Instruction>) -> Seq<InstructionView> {
    insts.map_values(|i: Instruction| i@)
}

/// The values of an optional instruction, as a sequence of at most one.
pub open spec fn opt_inst_view(inst: Option<Instruction>) -> Seq<InstructionView> {
    match inst {
        Some(i) => seq![i@],
        None => Seq::empty(),
    }
}

/// A function: its defining instruction and, in order, every instruction
/// after it (parameters, block labels and block bodies, and the end).
#[derive(Debug, PartialEq, Eq)]
pub struct Function {
    pub def: Option<Instruction>,
    pub body: Vec<Instruction>,
}

/// The mathematical value of a [`Function`].
pub struct FunctionView {
    pub def: Option<InstructionView>,
    pub body: Seq<InstructionView>,
}

impl View for Function {
    type V = FunctionView;

    open spec fn view(&self) -> FunctionView {
        FunctionView {
            def: match self.def {
                Some(d) => Some(d@),
                None => None,
            },
            body: insts_view(self.body@),
        }
    }
}

impl FunctionView {
    /// Every instruction of the function, the defining one first.
    pub open spec fn all_insts(self) -> Seq<InstructionView> {
        match self.def {
            Some(d) => seq![d] + self.body,
            None => self.body,
        }
    }
}

/// A module, section by section in the order SPIR-V lays them out, with the
/// id bound of its header (`None` where it has no header).
///
/// `debug` holds the debug sections (strings and sources, names, processed
/// markers) one after the other.
#[derive(Debug, PartialEq, Eq)]
pub struct Module {
    pub bound: Option<u32>,
    pub capabilities: Vec<Instruction>,
    pub extensions: Vec<Instruction>,
    pub ext_inst_imports: Vec<Instruction>,
    pub memory_model: Option<Instruction>,
    pub entry_points: Vec<Instruction>,
    pub execution_modes: Vec<Instruction>,
    pub debug: Vec<Instruction>,
    pub annotations: Vec<Instruction>,
    pub types_global_values: Vec<Instruction>,
    pub functions: Vec<Function>,
}

/// The mathematical value of a [`Module`].
pub struct ModuleView {
    pub bound: Option<u32>,
    pub capabilities: Seq<InstructionView>,
    pub extensions: Seq<InstructionView>,
    pub ext_inst_imports: Seq<InstructionView>,
    pub memory_model: Seq<InstructionView>,
    pub entry_points: Seq<InstructionView>,
    pub execution_modes: Seq<InstructionView>,
    pub debug: Seq<InstructionView>,
    pub annotations: Seq<InstructionView>,
    pub types_global_values: Seq<InstructionView>,
    pub functions: Seq<FunctionView>,
}

impl View for Module {
    type V = ModuleView;

    open spec fn view(&self) -> ModuleView {
        ModuleView {
            bound: self.bound,
            capabilities: insts_view(self.capabilities@),
            extensions: insts_view(self.extensions@),
            ext_inst_imports: insts_view(self.ext_inst_imports@),
            memory_model: opt_inst_view(self.memory_model),
            entry_points: insts_view(self.entry_points@),
            execution_modes: insts_view(self.execution_modes@),
            debug: insts_view(self.debug@),
            annotations: insts_view(self.annotations@),
            types_global_values: insts_view(self.types_global_values@),
            functions: self.functions@.map_values(|f: Function| f@),
        }
    }
}


/// `i` is the first index of `s` whose element satisfies `p`.
pub open spec fn is_first<T>(s: Seq<T>, p: spec_fn(T) -> bool, i: int) -> bool {
    &&& 0 <= i < s.len()
    &&& p(s[i])
    &&& forall|k: int| 0 <= k < i ==> !p(#[trigger] s[k])
}

/// A sequence has at most one first element satisfying a predicate.
pub proof fn lemma_first_unique<T>(s: Seq<T>, p: spec_fn(T) -> bool, i: int, j: int)
    requires
        is_first(s, p, i),
        is_first(s, p, j),
    ensures
        i == j,
{
    if i < j {
        assert(!p(s[i]));
    }
    if j < i {
        assert(!p(s[j]));
    }
}

} // verus!
