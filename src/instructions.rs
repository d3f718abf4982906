use vstd::prelude::*;

verus! {

/// Index of an interned term descriptor (see `DescriptorAllocator`).
#[derive(Debug, Clone, Copy, PartialEq, Eq, Structural, Hash)]
pub struct DescriptorId(pub usize);

/// A register named by the compiler: an argument register, a temporary
/// register, or a slot of the current environment frame.
#[derive(Debug, Clone, Copy, PartialEq, Eq, Structural, Hash)]
pub enum RegisterId {
    Argument(usize),
    Temporary(usize),
    Permanent(usize),
}

impl RegisterId {
    pub open spec fn spec_index(&self) -> usize {
        match self {
            RegisterId::Argument(i) => *i,
            RegisterId::Temporary(i) => *i,
            RegisterId::Permanent(i) => *i,
        }
    }

    /// The index carried by the register, whatever its class.
    pub fn index_num(&self) -> (r: usize)
        ensures
            r == self.spec_index(),
    {
        match self {
            RegisterId::Argument(index) => *index,
            RegisterId::Temporary(index) => *index,
            RegisterId::Permanent(index) => *index,
        }
    }
}

/// Which part of a clause a `DebugComment` labels.
#[derive(Debug, Clone, Copy, PartialEq, Eq, Structural)]
pub enum CommentSection {
    Clause,
    Head,
    Body,
    Goal,
    Query,
}

/// One instruction of the abstract machine.
#[derive(Debug, Clone, Copy, PartialEq, Eq, Structural)]
pub enum Instruction {
    // Query instructions
    PutStructure { structure: DescriptorId, register: RegisterId },
    PutVariable { argument_register: RegisterId, variable_register: RegisterId },
    PutValue { argument_register: RegisterId, value_register: RegisterId },
    SetVariable { register: RegisterId },
    SetValue { register: RegisterId },
    /// A label for readers of the instruction stream; the machine skips it.
    DebugComment { functor: DescriptorId, section: CommentSection },
    // Program instructions
    GetStructure { structure: DescriptorId, register: RegisterId },
    GetVariable { argument_register: RegisterId, variable_register: RegisterId },
    GetValue { argument_register: RegisterId, value_register: RegisterId },
    UnifyVariable { register: RegisterId },
    UnifyValue { register: RegisterId },
    // Control instructions
    Call { address: usize, functor: DescriptorId },
    Allocate { variables: usize },
    Deallocate,
    Proceed,
    TryMeElse { else_address: usize },
    RetryMeElse { else_address: usize },
    TrustMe,
    NoOp,
}

} // verus!
