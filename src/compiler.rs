use vstd::prelude::*;
use crate::descriptor::{term_key, DescriptorAllocator, DescriptorKind, TermDescriptor};
use crate::instructions::{CommentSection, DescriptorId, Instruction, RegisterId};
use crate::interpreter::InspectionVariable;
use crate::laws::{code_fits, instruction_fits, lemma_compiled_fits};
use crate::terms::{AbstractFact, AbstractProgram, AbstractRule, AbstractTerm};
use crate::occurrence::{
    chunk_of, is_permanent, lemma_node_occurs_in_root, lemma_occurs_before_step, lemma_occurs_has_node, occurs_in_chunk,
    occurs_in_chunk_before, rule_term,
};
use crate::traversal::{TermTable, fact_order, query_order, depth_first_order, lemma_fact_order_in_range,
    lemma_query_order_in_range, lemma_depth_first_order_in_range};

verus! {

// ---------------------------------------------------------------------------
// The two instruction shapes

pub open spec fn structure_instruction(program: bool, d: DescriptorId, r: RegisterId) -> Instruction {
    if program {
        Instruction::GetStructure { structure: d, register: r }
    } else {
        Instruction::PutStructure { structure: d, register: r }
    }
}

pub open spec fn variable_argument_instruction(program: bool, a: RegisterId, v: RegisterId) -> Instruction {
    if program {
        Instruction::GetVariable { argument_register: a, variable_register: v }
    } else {
        Instruction::PutVariable { argument_register: a, variable_register: v }
    }
}

pub open spec fn value_argument_instruction(program: bool, a: RegisterId, v: RegisterId) -> Instruction {
    if program {
        Instruction::GetValue { argument_register: a, value_register: v }
    } else {
        Instruction::PutValue { argument_register: a, value_register: v }
    }
}

pub open spec fn variable_instruction(program: bool, r: RegisterId) -> Instruction {
    if program {
        Instruction::UnifyVariable { register: r }
    } else {
        Instruction::SetVariable { register: r }
    }
}

pub open spec fn value_instruction(program: bool, r: RegisterId) -> Instruction {
    if program {
        Instruction::UnifyValue { register: r }
    } else {
        Instruction::SetValue { register: r }
    }
}

/// The instruction for an argument that is itself a structure or constant,
/// built (or matched) in its own register.
pub open spec fn sub_argument_instruction(program: bool, r: RegisterId) -> Instruction {
    if program {
        Instruction::UnifyVariable { register: r }
    } else {
        Instruction::SetValue { register: r }
    }
}

/// Program terms (heads) are matched with get/unify instructions in fact
/// order; query terms (goals, queries) are built with put/set instructions
/// in query order.
pub trait CompileTarget {
    spec fn program_mode() -> bool;

    fn is_program() -> (r: bool)
        ensures
            r == Self::program_mode(),
    ;

    fn instruction_for_structure(descriptor_id: DescriptorId, register: RegisterId) -> (r: Instruction)
        ensures
            r == structure_instruction(Self::program_mode(), descriptor_id, register),
    ;

    fn instruction_for_value_argument(argument: RegisterId, value: RegisterId) -> (r: Instruction)
        ensures
            r == value_argument_instruction(Self::program_mode(), argument, value),
    ;

    fn instruction_for_variable_argument(argument: RegisterId, variable: RegisterId) -> (r: Instruction)
        ensures
            r == variable_argument_instruction(Self::program_mode(), argument, variable),
    ;

    fn instruction_for_value(register: RegisterId) -> (r: Instruction)
        ensures
            r == value_instruction(Self::program_mode(), register),
    ;

    fn instruction_for_variable(register: RegisterId) -> (r: Instruction)
        ensures
            r == variable_instruction(Self::program_mode(), register),
    ;

    fn instruction_for_sub_argument(register: RegisterId) -> (r: Instruction)
        ensures
            r == sub_argument_instruction(Self::program_mode(), register),
    ;
}

pub struct QueryTarget;

pub struct ProgramTarget;

impl CompileTarget for ProgramTarget {
    open spec fn program_mode() -> bool {
        true
    }

    fn is_program() -> (r: bool) {
        true
    }

    fn instruction_for_structure(descriptor_id: DescriptorId, register: RegisterId) -> (r: Instruction) {
        Instruction::GetStructure { structure: descriptor_id, register }
    }

    fn instruction_for_value_argument(argument: RegisterId, value: RegisterId) -> (r: Instruction) {
        Instruction::GetValue { argument_register: argument, value_register: value }
    }

    fn instruction_for_variable_argument(argument: RegisterId, variable: RegisterId) -> (r: Instruction) {
        Instruction::GetVariable { argument_register: argument, variable_register: variable }
    }

    fn instruction_for_value(register: RegisterId) -> (r: Instruction) {
        Instruction::UnifyValue { register }
    }

    fn instruction_for_variable(register: RegisterId) -> (r: Instruction) {
        Instruction::UnifyVariable { register }
    }

    fn instruction_for_sub_argument(register: RegisterId) -> (r: Instruction) {
        Instruction::UnifyVariable { register }
    }
}

impl CompileTarget for QueryTarget {
    open spec fn program_mode() -> bool {
        false
    }

    fn is_program() -> (r: bool) {
        false
    }

    fn instruction_for_structure(descriptor_id: DescriptorId, register: RegisterId) -> (r: Instruction) {
        Instruction::PutStructure { structure: descriptor_id, register }
    }

    fn instruction_for_value_argument(argument: RegisterId, value: RegisterId) -> (r: Instruction) {
        Instruction::PutValue { argument_register: argument, value_register: value }
    }

    fn instruction_for_variable_argument(argument: RegisterId, variable: RegisterId) -> (r: Instruction) {
        Instruction::PutVariable { argument_register: argument, variable_register: variable }
    }

    fn instruction_for_value(register: RegisterId) -> (r: Instruction) {
        Instruction::SetValue { register }
    }

    fn instruction_for_variable(register: RegisterId) -> (r: Instruction) {
        Instruction::SetVariable { register }
    }

    fn instruction_for_sub_argument(register: RegisterId) -> (r: Instruction) {
        Instruction::SetValue { register }
    }
}

// ---------------------------------------------------------------------------
// Register allocation

/// The value the first pair with key `d` carries, if any.
pub open spec fn assoc<T>(s: Seq<(DescriptorId, T)>, d: DescriptorId) -> Option<T>
    decreases s.len(),
{
    if s.len() == 0 {
        None
    } else if s[0].0 == d {
        Some(s[0].1)
    } else {
        assoc(s.drop_first(), d)
    }
}

fn lookup<T: Copy>(s: &Vec<(DescriptorId, T)>, d: DescriptorId) -> (r: Option<T>)
    ensures
        r == assoc(s@, d),
{
    let mut i: usize = 0;
    assert(s@.subrange(0, s@.len() as int) =~= s@);
    while i < s.len()
        invariant
            i <= s@.len(),
            assoc(s@, d) == assoc(s@.subrange(i as int, s@.len() as int), d),
        decreases s@.len() - i,
    {
        assert(s@.subrange(i as int, s@.len() as int).drop_first() =~= s@.subrange(i + 1, s@.len() as int));
        if s[i].0 == d {
            return Some(s[i].1);
        }
        i += 1;
    }
    None
}

/// Where each node of a term lives while its code runs: one register per
/// variable (shared by all its occurrences), one per structure or constant
/// below the root's arguments, and the next free temporary register.
pub struct RegistryAllocator {
    pub node_registers: Vec<Option<RegisterId>>,
    pub variable_registers: Vec<(DescriptorId, RegisterId)>,
    pub next_temporary: usize,
}

/// Allocation state as a value.
pub struct AllocationModel {
    pub nodes: Seq<Option<RegisterId>>,
    pub variables: Seq<(DescriptorId, RegisterId)>,
    pub next: int,
}

impl RegistryAllocator {
    pub open spec fn model(&self) -> AllocationModel {
        AllocationModel { nodes: self.node_registers@, variables: self.variable_registers@, next: self.next_temporary as int }
    }
}

pub open spec fn initial_allocation(
    nodes: nat,
    variables: Seq<(DescriptorId, RegisterId)>,
    first_temporary: usize,
) -> AllocationModel {
    AllocationModel { nodes: Seq::new(nodes, |i: int| None), variables, next: first_temporary as int }
}

/// Allocation for one node: a variable met for the first time gets its
/// permanent slot if it has one, else the next temporary; a structure or
/// constant below the root's arguments gets the next temporary.
pub open spec fn allocate_node(
    st: AllocationModel,
    table: TermTable,
    node_ids: Seq<DescriptorId>,
    permanents: Seq<(DescriptorId, usize)>,
    id: usize,
) -> AllocationModel {
    let node = table.nodes@[id as int];
    if node.item.level == 0 {
        st
    } else if node.item.term is Variable {
        let d = node_ids[id as int];
        if assoc(st.variables, d) is Some {
            st
        } else {
            match assoc(permanents, d) {
                Some(slot) => AllocationModel { variables: st.variables.push((d, RegisterId::Permanent(slot))), ..st },
                None => AllocationModel {
                    variables: st.variables.push((d, RegisterId::Temporary(st.next as usize))),
                    next: st.next + 1,
                    ..st
                },
            }
        }
    } else if node.item.level != 1 {
        AllocationModel { nodes: st.nodes.update(id as int, Some(RegisterId::Temporary(st.next as usize))), next: st.next + 1, ..st }
    } else {
        st
    }
}

/// Allocation over the first `k` ids of `order`.
pub open spec fn allocate_upto(
    start: AllocationModel,
    table: TermTable,
    node_ids: Seq<DescriptorId>,
    permanents: Seq<(DescriptorId, usize)>,
    order: Seq<usize>,
    k: int,
) -> AllocationModel
    decreases k,
{
    if k <= 0 {
        start
    } else {
        allocate_node(allocate_upto(start, table, node_ids, permanents, order, k - 1), table, node_ids, permanents, order[k - 1])
    }
}

pub proof fn lemma_allocate_monotone(
    start: AllocationModel,
    table: TermTable,
    node_ids: Seq<DescriptorId>,
    permanents: Seq<(DescriptorId, usize)>,
    order: Seq<usize>,
    j: int,
    k: int,
)
    requires
        0 <= j <= k,
    ensures
        allocate_upto(start, table, node_ids, permanents, order, j).next <= allocate_upto(
            start,
            table,
            node_ids,
            permanents,
            order,
            k,
        ).next,
    decreases k - j,
{
    if j < k {
        lemma_allocate_monotone(start, table, node_ids, permanents, order, j, k - 1);
    }
}

impl RegistryAllocator {
    pub fn lookup_variable(&self, d: DescriptorId) -> (r: Option<RegisterId>)
        ensures
            r == assoc(self.variable_registers@, d),
    {
        lookup(&self.variable_registers, d)
    }

    /// Allocates registers to the nodes of `table` visited in `order`,
    /// starting from the variables already placed in `variables` and from
    /// temporary `first_temporary`. `None` when the temporaries would run
    /// past the largest index.
    pub fn new(
        table: &TermTable,
        order: &Vec<usize>,
        node_ids: &Vec<DescriptorId>,
        permanent_variables: &Vec<(DescriptorId, usize)>,
        variables: Vec<(DescriptorId, RegisterId)>,
        first_temporary: usize,
    ) -> (r: Option<Self>)
        requires
            node_ids@.len() == table.nodes@.len(),
            forall|i: int| 0 <= i < order@.len() ==> (#[trigger] order@[i]) < table.nodes@.len(),
        ensures
            ({
                let start = initial_allocation(table.nodes@.len(), variables@, first_temporary);
                let result = allocate_upto(start, *table, node_ids@, permanent_variables@, order@, order@.len() as int);
                &&& r is Some ==> r->0.model() == result
                &&& r is Some ==> r->0.node_registers@.len() == table.nodes@.len()
                &&& r is None ==> result.next > usize::MAX
            }),
    {
        let ghost vars0 = variables@;
        let ghost start = initial_allocation(table.nodes@.len(), vars0, first_temporary);
        let mut nodes: Vec<Option<RegisterId>> = Vec::new();
        let mut i: usize = 0;
        while i < table.nodes.len()
            invariant
                i <= table.nodes@.len(),
                nodes@ == Seq::new(i as nat, |k: int| None::<RegisterId>),
            decreases table.nodes@.len() - i,
        {
            nodes.push(None);
            i += 1;
            assert(nodes@ =~= Seq::new(i as nat, |k: int| None::<RegisterId>));
        }
        assert(nodes@ =~= start.nodes);
        let mut alloc = RegistryAllocator { node_registers: nodes, variable_registers: variables, next_temporary: first_temporary };
        let mut k: usize = 0;
        while k < order.len()
            invariant
                k <= order@.len(),
                node_ids@.len() == table.nodes@.len(),
                forall|i: int| 0 <= i < order@.len() ==> (#[trigger] order@[i]) < table.nodes@.len(),
                alloc.node_registers@.len() == table.nodes@.len(),
                vars0 == variables@,
                start == initial_allocation(table.nodes@.len(), vars0, first_temporary),
                alloc.model() == allocate_upto(start, *table, node_ids@, permanent_variables@, order@, k as int),
            decreases order@.len() - k,
        {
            let id = order[k];
            let node = &table.nodes[id];
            if node.item.level == 0 {
                k += 1;
                continue;
            }
            match node.item.term {
                AbstractTerm::Variable(_) => {
                    let d = node_ids[id];
                    if alloc.lookup_variable(d).is_none() {
                        match lookup(permanent_variables, d) {
                            Some(slot) => {
                                alloc.variable_registers.push((d, RegisterId::Permanent(slot)));
                            },
                            None => {
                                if alloc.next_temporary == usize::MAX {
                                    assert(allocate_upto(start, *table, node_ids@, permanent_variables@, order@, k + 1).next
                                        == alloc.next_temporary + 1);
                                    proof {
                                        lemma_allocate_monotone(start, *table, node_ids@, permanent_variables@, order@, k + 1, order@.len() as int);
                                    }
                                    return None;
                                }
                                alloc.variable_registers.push((d, RegisterId::Temporary(alloc.next_temporary)));
                                alloc.next_temporary = alloc.next_temporary + 1;
                            },
                        }
                    }
                },
                _ => {
                    if node.item.level != 1 {
                        if alloc.next_temporary == usize::MAX {
                            assert(allocate_upto(start, *table, node_ids@, permanent_variables@, order@, k + 1).next
                                == alloc.next_temporary + 1);
                            proof {
                                lemma_allocate_monotone(start, *table, node_ids@, permanent_variables@, order@, k + 1, order@.len() as int);
                            }
                            return None;
                        }
                        alloc.node_registers.set(id, Some(RegisterId::Temporary(alloc.next_temporary)));
                        alloc.next_temporary = alloc.next_temporary + 1;
                    }
                },
            }
            k += 1;
        }
        Some(alloc)
    }
}

// ---------------------------------------------------------------------------
// Code emission

/// Interns the descriptor of every node of `table`; the result is indexed by
/// node id.
pub fn intern_nodes(table: &TermTable, descriptors: &mut DescriptorAllocator) -> (r: Vec<DescriptorId>)
    requires
        old(descriptors).wf(),
    ensures
        final(descriptors).wf(),
        r@.len() == table.nodes@.len(),
        old(descriptors).descriptors@.len() <= final(descriptors).descriptors@.len(),
        forall|i: int| 0 <= i < old(descriptors).descriptors@.len()
            ==> final(descriptors).descriptors@[i] == #[trigger] old(descriptors).descriptors@[i],
        forall|j: int|
            0 <= j < r@.len() ==> {
                &&& (#[trigger] r@[j]).0 < final(descriptors).descriptors@.len()
                &&& final(descriptors).descriptors@[r@[j].0 as int].key() == term_key(*table.nodes@[j].item.term)
                &&& table.nodes@[j].item.term is Variable ==> final(descriptors).descriptors@[r@[j].0 as int].kind
                    == DescriptorKind::Variable
            },
{
    let mut ids: Vec<DescriptorId> = Vec::new();
    let mut j: usize = 0;
    while j < table.nodes.len()
        invariant
            descriptors.wf(),
            j <= table.nodes@.len(),
            ids@.len() == j,
            old(descriptors).descriptors@.len() <= descriptors.descriptors@.len(),
            forall|i: int| 0 <= i < old(descriptors).descriptors@.len()
                ==> descriptors.descriptors@[i] == #[trigger] old(descriptors).descriptors@[i],
            forall|k: int|
                0 <= k < j ==> {
                    &&& (#[trigger] ids@[k]).0 < descriptors.descriptors@.len()
                    &&& descriptors.descriptors@[ids@[k].0 as int].key() == term_key(*table.nodes@[k].item.term)
                    &&& table.nodes@[k].item.term is Variable ==> descriptors.descriptors@[ids@[k].0 as int].kind
                        == DescriptorKind::Variable
                },
        decreases table.nodes@.len() - j,
    {
        let ghost before = descriptors.descriptors@;
        let id = descriptors.get_or_set(table.nodes[j].item.term);
        assert forall|k: int| 0 <= k < j implies {
            &&& (#[trigger] ids@[k]).0 < descriptors.descriptors@.len()
            &&& descriptors.descriptors@[ids@[k].0 as int].key() == term_key(*table.nodes@[k].item.term)
            &&& table.nodes@[k].item.term is Variable ==> descriptors.descriptors@[ids@[k].0 as int].kind
                == DescriptorKind::Variable
        } by {
            assert(descriptors.descriptors@[ids@[k].0 as int] == before[ids@[k].0 as int]);
        }
        ids.push(id);
        j += 1;
    }
    ids
}

pub open spec fn or_default(r: Option<RegisterId>) -> RegisterId {
    match r {
        Some(r) => r,
        None => RegisterId::Temporary(0),
    }
}

/// Code emitted so far, and the variables already given a value.
pub struct EmitModel {
    pub code: Seq<Instruction>,
    pub processed: Seq<DescriptorId>,
}

/// The register that holds a structure or constant node: its argument
/// register at the root's arguments, its allocated register below.
pub open spec fn node_register(alloc: AllocationModel, table: TermTable, id: int) -> RegisterId {
    let node = table.nodes@[id];
    if node.item.level == 1 {
        RegisterId::Argument(node.item.argument_index)
    } else {
        or_default(alloc.nodes[id])
    }
}

/// The instruction for argument `c` of a structure: a variable is bound
/// fresh the first time and matched (or copied) after; a structure or
/// constant goes through its own register.
pub open spec fn emit_child(
    program: bool,
    table: TermTable,
    node_ids: Seq<DescriptorId>,
    alloc: AllocationModel,
    st: EmitModel,
    c: int,
) -> EmitModel {
    if table.nodes@[c].item.term is Variable {
        let d = node_ids[c];
        let reg = or_default(assoc(alloc.variables, d));
        if st.processed.contains(d) {
            EmitModel { code: st.code.push(value_instruction(program, reg)), ..st }
        } else {
            EmitModel { code: st.code.push(variable_instruction(program, reg)), processed: st.processed.push(d) }
        }
    } else {
        EmitModel { code: st.code.push(sub_argument_instruction(program, or_default(alloc.nodes[c]))), ..st }
    }
}

pub open spec fn emit_children(
    program: bool,
    table: TermTable,
    node_ids: Seq<DescriptorId>,
    alloc: AllocationModel,
    st: EmitModel,
    kids: Seq<usize>,
    k: int,
) -> EmitModel
    decreases k,
{
    if k <= 0 {
        st
    } else {
        emit_child(program, table, node_ids, alloc, emit_children(program, table, node_ids, alloc, st, kids, k - 1), kids[k - 1] as int)
    }
}

/// The code for one node in traversal order: a root argument that is a
/// variable, a constant, or a structure followed by its arguments. Variables
/// below the root's arguments are handled by their parent.
pub open spec fn emit_node(
    program: bool,
    table: TermTable,
    node_ids: Seq<DescriptorId>,
    alloc: AllocationModel,
    st: EmitModel,
    id: int,
) -> EmitModel {
    let node = table.nodes@[id];
    if node.item.level == 0 {
        st
    } else {
        emit_non_root(program, table, node_ids, alloc, st, id)
    }
}

pub open spec fn emit_non_root(
    program: bool,
    table: TermTable,
    node_ids: Seq<DescriptorId>,
    alloc: AllocationModel,
    st: EmitModel,
    id: int,
) -> EmitModel {
    let node = table.nodes@[id];
    match *node.item.term {
        AbstractTerm::Variable(_) => if node.item.level == 1 {
            let d = node_ids[id];
            let reg = or_default(assoc(alloc.variables, d));
            let a = RegisterId::Argument(node.item.argument_index);
            if st.processed.contains(d) {
                EmitModel { code: st.code.push(value_argument_instruction(program, a, reg)), ..st }
            } else {
                EmitModel {
                    code: st.code.push(variable_argument_instruction(program, a, reg)),
                    processed: st.processed.push(d),
                }
            }
        } else {
            st
        },
        AbstractTerm::Constant(_) => EmitModel {
            code: st.code.push(structure_instruction(program, node_ids[id], node_register(alloc, table, id))),
            ..st
        },
        AbstractTerm::Structure(_, _) => {
            let head = EmitModel {
                code: st.code.push(structure_instruction(program, node_ids[id], node_register(alloc, table, id))),
                ..st
            };
            emit_children(program, table, node_ids, alloc, head, node.children@, node.children@.len() as int)
        },
    }
}

pub open spec fn emit_upto(
    program: bool,
    table: TermTable,
    node_ids: Seq<DescriptorId>,
    alloc: AllocationModel,
    st: EmitModel,
    order: Seq<usize>,
    k: int,
) -> EmitModel
    decreases k,
{
    if k <= 0 {
        st
    } else {
        emit_node(program, table, node_ids, alloc, emit_upto(program, table, node_ids, alloc, st, order, k - 1), order[k - 1] as int)
    }
}

fn contains(s: &Vec<DescriptorId>, d: DescriptorId) -> (r: bool)
    ensures
        r == s@.contains(d),
{
    let mut i: usize = 0;
    while i < s.len()
        invariant
            i <= s@.len(),
            forall|k: int| 0 <= k < i ==> s@[k] != d,
        decreases s@.len() - i,
    {
        if s[i] == d {
            return true;
        }
        i += 1;
    }
    false
}

fn register_or_default(r: Option<RegisterId>) -> (x: RegisterId)
    ensures
        x == or_default(r),
{
    match r {
        Some(r) => r,
        None => RegisterId::Temporary(0),
    }
}

/// Appends the code of the nodes of `table` visited in `order`.
fn emit<T: CompileTarget>(
    table: &TermTable,
    order: &Vec<usize>,
    node_ids: &Vec<DescriptorId>,
    alloc: &RegistryAllocator,
    processed: &mut Vec<DescriptorId>,
    out: &mut Vec<Instruction>,
)
    requires
        table.wf(),
        node_ids@.len() == table.nodes@.len(),
        alloc.node_registers@.len() == table.nodes@.len(),
        forall|i: int| 0 <= i < order@.len() ==> (#[trigger] order@[i]) < table.nodes@.len(),
    ensures
        (EmitModel { code: final(out)@, processed: final(processed)@ }) == emit_upto(
            T::program_mode(),
            *table,
            node_ids@,
            alloc.model(),
            EmitModel { code: old(out)@, processed: old(processed)@ },
            order@,
            order@.len() as int,
        ),
{
    let ghost program = T::program_mode();
    let ghost start = EmitModel { code: out@, processed: processed@ };
    let mut k: usize = 0;
    while k < order.len()
        invariant
            table.wf(),
            node_ids@.len() == table.nodes@.len(),
            alloc.node_registers@.len() == table.nodes@.len(),
            forall|i: int| 0 <= i < order@.len() ==> (#[trigger] order@[i]) < table.nodes@.len(),
            start == (EmitModel { code: old(out)@, processed: old(processed)@ }),
            program == T::program_mode(),
            k <= order@.len(),
            (EmitModel { code: out@, processed: processed@ }) == emit_upto(
                program,
                *table,
                node_ids@,
                alloc.model(),
                start,
                order@,
                k as int,
            ),
        decreases order@.len() - k,
    {
        let id = order[k];
        let node = &table.nodes[id];
        if node.item.level == 0 {
            k += 1;
            continue;
        }
        match node.item.term {
            AbstractTerm::Variable(_) => {
                if node.item.level == 1 {
                    let d = node_ids[id];
                    let reg = register_or_default(alloc.lookup_variable(d));
                    let a = RegisterId::Argument(node.item.argument_index);
                    if contains(processed, d) {
                        out.push(T::instruction_for_value_argument(a, reg));
                    } else {
                        out.push(T::instruction_for_variable_argument(a, reg));
                        processed.push(d);
                    }
                }
            },
            AbstractTerm::Constant(_) => {
                let reg = if node.item.level == 1 {
                    RegisterId::Argument(node.item.argument_index)
                } else {
                    register_or_default(alloc.node_registers[id])
                };
                out.push(T::instruction_for_structure(node_ids[id], reg));
            },
            AbstractTerm::Structure(_, _) => {
                let reg = if node.item.level == 1 {
                    RegisterId::Argument(node.item.argument_index)
                } else {
                    register_or_default(alloc.node_registers[id])
                };
                out.push(T::instruction_for_structure(node_ids[id], reg));
                let ghost head = EmitModel { code: out@, processed: processed@ };
                let kids = &node.children;
                let mut i: usize = 0;
                while i < kids.len()
                    invariant
                        table.wf(),
                        id < table.nodes@.len(),
                        kids@ == table.nodes@[id as int].children@,
                        node_ids@.len() == table.nodes@.len(),
                        alloc.node_registers@.len() == table.nodes@.len(),
                        program == T::program_mode(),
                        i <= kids@.len(),
                        (EmitModel { code: out@, processed: processed@ }) == emit_children(
                            program,
                            *table,
                            node_ids@,
                            alloc.model(),
                            head,
                            kids@,
                            i as int,
                        ),
                    decreases kids@.len() - i,
                {
                    let c = kids[i];
                    assert(id < c < table.nodes@.len());
                    match table.nodes[c].item.term {
                        AbstractTerm::Variable(_) => {
                            let d = node_ids[c];
                            let reg = register_or_default(alloc.lookup_variable(d));
                            if contains(processed, d) {
                                out.push(T::instruction_for_value(reg));
                            } else {
                                out.push(T::instruction_for_variable(reg));
                                processed.push(d);
                            }
                        },
                        _ => {
                            let reg = register_or_default(alloc.node_registers[c]);
                            out.push(T::instruction_for_sub_argument(reg));
                        },
                    }
                    i += 1;
                }
            },
        }
        k += 1;
    }
}

// ---------------------------------------------------------------------------
// Permanent variables

/// One variable met while scanning a rule: its descriptor, the first chunk
/// it was met in, and whether it was met in another chunk too.
struct Occurrence {
    variable: DescriptorId,
    first_chunk: usize,
    shared: bool,
}

spec fn distinct_occurrences(s: Seq<Occurrence>) -> bool {
    forall|i: int, j: int| 0 <= i < j < s.len() ==> (#[trigger] s[i]).variable != (#[trigger] s[j]).variable
}

spec fn variable_name(descriptors: DescriptorAllocator, d: DescriptorId) -> Seq<char> {
    descriptors.descriptors@[d.0 as int].name@
}

/// What the scan of the first `k` terms of `rule` has found: one entry per
/// variable met, in order of first appearance; an entry is shared exactly
/// when its variable was met in another chunk than its first.
#[verifier::opaque]
spec fn scanned(rule: AbstractRule, k: int, descriptors: DescriptorAllocator, seen: Seq<Occurrence>) -> bool {
    &&& distinct_occurrences(seen)
    &&& forall|i: int| 0 <= i < seen.len() ==> {
        let e = #[trigger] seen[i];
        let n = variable_name(descriptors, e.variable);
        &&& e.variable.0 < descriptors.descriptors@.len()
        &&& descriptors.descriptors@[e.variable.0 as int].kind == DescriptorKind::Variable
        &&& occurs_in_chunk_before(rule, k, e.first_chunk as int, n)
        &&& e.shared ==> exists|c: int| c != e.first_chunk && #[trigger] occurs_in_chunk_before(rule, k, c, n)
        &&& !e.shared ==> forall|c: int| #[trigger] occurs_in_chunk_before(rule, k, c, n) ==> c == e.first_chunk
    }
    &&& forall|c: int, name: Seq<char>| #[trigger] occurs_in_chunk_before(rule, k, c, name) ==> exists|i: int|
        0 <= i < seen.len() && variable_name(descriptors, (#[trigger] seen[i]).variable) == name
}

proof fn lemma_scanned_grow(rule: AbstractRule, k: int, a: DescriptorAllocator, b: DescriptorAllocator, seen: Seq<Occurrence>)
    requires
        scanned(rule, k, a, seen),
        a.descriptors@.len() <= b.descriptors@.len(),
        forall|i: int| 0 <= i < a.descriptors@.len() ==> b.descriptors@[i] == #[trigger] a.descriptors@[i],
    ensures
        scanned(rule, k, b, seen),
{
    reveal(scanned);
    assert forall|i: int| 0 <= i < seen.len() implies variable_name(b, (#[trigger] seen[i]).variable) == variable_name(a, seen[i].variable) by {
        assert(b.descriptors@[seen[i].variable.0 as int] == a.descriptors@[seen[i].variable.0 as int]);
    }
    assert forall|c: int, name: Seq<char>| #[trigger] occurs_in_chunk_before(rule, k, c, name) implies exists|i: int|
        0 <= i < seen.len() && variable_name(b, (#[trigger] seen[i]).variable) == name by {
        let i = choose|i: int| 0 <= i < seen.len() && variable_name(a, (#[trigger] seen[i]).variable) == name;
        assert(variable_name(b, seen[i].variable) == name);
    }
}

/// The entries after the first `j` nodes of the table of term `kk` have been
/// looked at (chunk `chunk`), starting from `seen0`.
#[verifier::opaque]
spec fn scan_progress(
    rule: AbstractRule,
    kk: int,
    chunk: usize,
    descs: DescriptorAllocator,
    table: TermTable,
    seen0: Seq<Occurrence>,
    seen: Seq<Occurrence>,
    j: int,
) -> bool {
    &&& distinct_occurrences(seen)
    &&& seen0.len() <= seen.len()
    &&& forall|i: int| 0 <= i < seen0.len() ==> (#[trigger] seen[i]).variable == seen0[i].variable
        && seen[i].first_chunk == seen0[i].first_chunk && (seen0[i].shared ==> seen[i].shared)
    &&& forall|i: int| 0 <= i < seen.len() ==> {
        let e = #[trigger] seen[i];
        let n = variable_name(descs, e.variable);
        &&& e.variable.0 < descs.descriptors@.len()
        &&& descs.descriptors@[e.variable.0 as int].kind == DescriptorKind::Variable
        &&& occurs_in_chunk_before(rule, kk + 1, e.first_chunk as int, n)
        &&& e.shared ==> exists|c: int| c != e.first_chunk && #[trigger] occurs_in_chunk_before(rule, kk + 1, c, n)
        &&& !e.shared ==> forall|c: int| #[trigger] occurs_in_chunk_before(rule, kk, c, n) ==> c == e.first_chunk
        &&& !e.shared ==> forall|q: int| 0 <= q < j && (#[trigger] table.nodes@[q]).item.term is Variable
            && table.nodes@[q].item.term.spec_name() == n ==> chunk == e.first_chunk
    }
    &&& forall|q: int| 0 <= q < j && (#[trigger] table.nodes@[q]).item.term is Variable ==> exists|i: int|
        0 <= i < seen.len() && variable_name(descs, (#[trigger] seen[i]).variable) == table.nodes@[q].item.term.spec_name()
}

spec fn ids_describe(table: TermTable, ids: Seq<DescriptorId>, descs: DescriptorAllocator) -> bool {
    &&& ids.len() == table.nodes@.len()
    &&& forall|k2: int|
        0 <= k2 < ids.len() ==> {
            &&& (#[trigger] ids[k2]).0 < descs.descriptors@.len()
            &&& descs.descriptors@[ids[k2].0 as int].key() == term_key(*table.nodes@[k2].item.term)
            &&& table.nodes@[k2].item.term is Variable ==> descs.descriptors@[ids[k2].0 as int].kind
                == DescriptorKind::Variable
        }
}

/// Looks at node `j`: a variable is added, or marked shared when it was
/// first met in another chunk.
#[verifier::rlimit(60)]
fn note_node(
    rule: &AbstractRule,
    kk: Ghost<int>,
    chunk: usize,
    descs: Ghost<DescriptorAllocator>,
    table: &TermTable,
    ids: &Vec<DescriptorId>,
    seen0: Ghost<Seq<Occurrence>>,
    j: usize,
    seen: &mut Vec<Occurrence>,
)
    requires
        table.wf(),
        *table.nodes@[0].item.term == rule_term(*rule, kk@),
        0 <= kk@,
        chunk == chunk_of(kk@),
        descs@.wf(),
        j < table.nodes@.len(),
        ids_describe(*table, ids@, descs@),
        scanned(*rule, kk@, descs@, seen0@),
        scan_progress(*rule, kk@, chunk, descs@, *table, seen0@, old(seen)@, j as int),
    ensures
        scan_progress(*rule, kk@, chunk, descs@, *table, seen0@, final(seen)@, j + 1),
{
    reveal(scan_progress);
    let ghost descs = descs@;
    let ghost kk = kk@;
    let ghost seen0 = seen0@;
    if let AbstractTerm::Variable(_) = table.nodes[j].item.term {
        let d = ids[j];
        let ghost name = table.nodes@[j as int].item.term.spec_name();
        proof {
            lemma_node_occurs_in_root(*table, j as int, name);
            lemma_occurs_before_step(*rule, kk, chunk as int, name);
            assert(variable_name(descs, d) == name);
        }
        let mut p: usize = 0;
        let mut found = false;
        while p < seen.len() && !found
            invariant
                p <= seen@.len(),
                !found ==> forall|i: int| 0 <= i < p ==> (#[trigger] seen@[i]).variable != d,
                found ==> p < seen@.len() && seen@[p as int].variable == d,
            decreases seen@.len() - p + (if found { 0int } else { 1int }),
        {
            if seen[p].variable == d {
                found = true;
            } else {
                p += 1;
            }
        }
        let ghost before = seen@;
        if found {
            if seen[p].first_chunk != chunk {
                let first_chunk = seen[p].first_chunk;
                seen.set(p, Occurrence { variable: d, first_chunk, shared: true });
            }
        } else {
            proof {
                reveal(scanned);
                assert forall|c: int| #[trigger] occurs_in_chunk_before(*rule, kk, c, name) implies false by {
                    let i = choose|i: int| 0 <= i < seen0.len() && variable_name(descs, (#[trigger] seen0[i]).variable) == name;
                    assert(seen@[i].variable == seen0[i].variable);
                    let e = descs.descriptors@[seen0[i].variable.0 as int];
                    assert(e.key() == descs.descriptors@[d.0 as int].key());
                }
            }
            seen.push(Occurrence { variable: d, first_chunk: chunk, shared: false });
        }
        proof {
            assert(occurs_in_chunk_before(*rule, kk + 1, chunk as int, name));
            assert forall|i: int| 0 <= i < seen@.len() implies {
                let e = #[trigger] seen@[i];
                let n = variable_name(descs, e.variable);
                &&& e.variable.0 < descs.descriptors@.len()
                &&& descs.descriptors@[e.variable.0 as int].kind == DescriptorKind::Variable
                &&& occurs_in_chunk_before(*rule, kk + 1, e.first_chunk as int, n)
                &&& e.shared ==> exists|c: int| c != e.first_chunk && #[trigger] occurs_in_chunk_before(*rule, kk + 1, c, n)
                &&& !e.shared ==> forall|c: int| #[trigger] occurs_in_chunk_before(*rule, kk, c, n) ==> c == e.first_chunk
                &&& !e.shared ==> forall|q: int| 0 <= q < j + 1 && (#[trigger] table.nodes@[q]).item.term is Variable
                    && table.nodes@[q].item.term.spec_name() == n ==> chunk == e.first_chunk
            } by {
                let e = seen@[i];
                let n = variable_name(descs, e.variable);
                if i < before.len() && e.variable != d {
                    assert(e == before[i]);
                    let k1 = descs.descriptors@[e.variable.0 as int].key();
                    let k2 = descs.descriptors@[d.0 as int].key();
                    assert(k1 != k2);
                    assert(n != name);
                } else if e.variable == d {
                    assert(n == name);
                    if e.shared && !(i < before.len() && before[i].shared) {
                        assert(occurs_in_chunk_before(*rule, kk + 1, chunk as int, n));
                    }
                }
            }
            assert forall|q: int| 0 <= q < j + 1 && (#[trigger] table.nodes@[q]).item.term is Variable implies exists|i: int|
                0 <= i < seen@.len() && variable_name(descs, (#[trigger] seen@[i]).variable) == table.nodes@[q].item.term.spec_name() by {
                if q < j {
                    let i = choose|i: int| 0 <= i < before.len() && variable_name(descs, (#[trigger] before[i]).variable)
                        == table.nodes@[q].item.term.spec_name();
                    assert(seen@[i].variable == before[i].variable);
                } else {
                    assert(seen@[p as int].variable == d);
                }
            }
        }
    }
}

/// Scans term `k` of `rule` (chunk `chunk`): records each variable met.
fn record_variables(
    rule: &AbstractRule,
    k: usize,
    chunk: usize,
    descriptors: &mut DescriptorAllocator,
    seen: &mut Vec<Occurrence>,
)
    requires
        old(descriptors).wf(),
        k <= rule.goals@.len(),
        chunk == chunk_of(k as int),
        scanned(*rule, k as int, *old(descriptors), old(seen)@),
    ensures
        final(descriptors).wf(),
        old(descriptors).descriptors@.len() <= final(descriptors).descriptors@.len(),
        forall|i: int| 0 <= i < old(descriptors).descriptors@.len()
            ==> final(descriptors).descriptors@[i] == #[trigger] old(descriptors).descriptors@[i],
        scanned(*rule, k + 1, *final(descriptors), final(seen)@),
{
    let term = if k == 0 { &rule.head } else { &rule.goals[k - 1] };
    let ghost kk = k as int;
    assert(*term == rule_term(*rule, kk));
    let table = TermTable::new(term);
    let ghost d0 = *descriptors;
    let ids = intern_nodes(&table, descriptors);
    proof { lemma_scanned_grow(*rule, kk, d0, *descriptors, seen@); }
    let ghost seen0 = seen@;
    let ghost descs = *descriptors;
    proof {
        reveal(scanned);
        reveal(scan_progress);
        assert forall|i: int| 0 <= i < seen@.len() implies {
            let e = #[trigger] seen@[i];
            let n = variable_name(descs, e.variable);
            &&& occurs_in_chunk_before(*rule, kk + 1, e.first_chunk as int, n)
            &&& e.shared ==> exists|c: int| c != e.first_chunk && #[trigger] occurs_in_chunk_before(*rule, kk + 1, c, n)
        } by {
            let e = seen@[i];
            let n = variable_name(descs, e.variable);
            lemma_occurs_before_step(*rule, kk, e.first_chunk as int, n);
            if e.shared {
                let c = choose|c: int| c != e.first_chunk && #[trigger] occurs_in_chunk_before(*rule, kk, c, n);
                lemma_occurs_before_step(*rule, kk, c, n);
            }
        }
        assert(scan_progress(*rule, kk, chunk, descs, table, seen0, seen@, 0));
    }
    let mut j: usize = 0;
    while j < table.nodes.len()
        invariant
            table.wf(),
            *table.nodes@[0].item.term == rule_term(*rule, kk),
            kk == k,
            chunk == chunk_of(kk),
            *descriptors == descs,
            descs.wf(),
            j <= table.nodes@.len(),
            ids_describe(table, ids@, descs),
            scanned(*rule, kk, descs, seen0),
            scan_progress(*rule, kk, chunk, descs, table, seen0, seen@, j as int),
        decreases table.nodes@.len() - j,
    {
        note_node(rule, Ghost(kk), chunk, Ghost(descs), &table, &ids, Ghost(seen0), j, seen);
        j += 1;
    }
    proof {
        reveal(scanned);
        reveal(scan_progress);
        assert forall|c: int, name: Seq<char>| #[trigger] occurs_in_chunk_before(*rule, kk + 1, c, name) implies exists|i: int|
            0 <= i < seen@.len() && variable_name(descs, (#[trigger] seen@[i]).variable) == name by {
            lemma_occurs_before_step(*rule, kk, c, name);
            if occurs_in_chunk_before(*rule, kk, c, name) {
                let i = choose|i: int| 0 <= i < seen0.len() && variable_name(descs, (#[trigger] seen0[i]).variable) == name;
                assert(seen@[i].variable == seen0[i].variable);
            } else {
                lemma_occurs_has_node(table, 0, name);
            }
        }
        assert forall|i: int| 0 <= i < seen@.len() implies {
            let e = #[trigger] seen@[i];
            let n = variable_name(descs, e.variable);
            !e.shared ==> forall|c: int| #[trigger] occurs_in_chunk_before(*rule, kk + 1, c, n) ==> c == e.first_chunk
        } by {
            let e = seen@[i];
            let n = variable_name(descs, e.variable);
            if !e.shared {
                assert forall|c: int| #[trigger] occurs_in_chunk_before(*rule, kk + 1, c, n) implies c == e.first_chunk by {
                    lemma_occurs_before_step(*rule, kk, c, n);
                    if !occurs_in_chunk_before(*rule, kk, c, n) {
                        lemma_occurs_has_node(table, 0, n);
                    }
                }
            }
        }
    }
}

spec fn is_shared_variable(seen: Seq<Occurrence>, i: int, d: DescriptorId) -> bool {
    exists|m: int| 0 <= m < i && (#[trigger] seen[m]).shared && seen[m].variable == d
}

/// The variables of the shared entries among the first `i`, in order.
spec fn shared_ids(seen: Seq<Occurrence>, i: int) -> Seq<DescriptorId>
    decreases i,
{
    if i <= 0 {
        Seq::empty()
    } else if seen[i - 1].shared {
        shared_ids(seen, i - 1).push(seen[i - 1].variable)
    } else {
        shared_ids(seen, i - 1)
    }
}

proof fn lemma_shared_ids(seen: Seq<Occurrence>, i: int)
    requires
        0 <= i <= seen.len(),
        distinct_occurrences(seen),
    ensures
        forall|q: int| 0 <= q < shared_ids(seen, i).len() ==> #[trigger] is_shared_variable(seen, i, shared_ids(seen, i)[q]),
        forall|m: int| 0 <= m < i && (#[trigger] seen[m]).shared ==> shared_ids(seen, i).contains(seen[m].variable),
        forall|q: int, l: int| 0 <= q < l < shared_ids(seen, i).len() ==> (#[trigger] shared_ids(seen, i)[q]) != (
            #[trigger] shared_ids(seen, i)[l]),
    decreases i,
{
    if i > 0 {
        lemma_shared_ids(seen, i - 1);
        let prev = shared_ids(seen, i - 1);
        let cur = shared_ids(seen, i);
        if seen[i - 1].shared {
            assert forall|q: int| 0 <= q < cur.len() implies #[trigger] is_shared_variable(seen, i, cur[q]) by {
                if q == prev.len() {
                    assert(seen[i - 1].shared && cur[q] == seen[i - 1].variable);
                } else {
                    assert(cur[q] == prev[q]);
                    assert(is_shared_variable(seen, i - 1, prev[q]));
                    let m = choose|m: int| 0 <= m < i - 1 && (#[trigger] seen[m]).shared && seen[m].variable == prev[q];
                    assert(0 <= m < i);
                }
            }
            assert forall|m: int| 0 <= m < i && (#[trigger] seen[m]).shared implies cur.contains(seen[m].variable) by {
                if m == i - 1 {
                    assert(cur[prev.len() as int] == seen[m].variable);
                } else {
                    assert(prev.contains(seen[m].variable));
                    let q = choose|q: int| 0 <= q < prev.len() && prev[q] == seen[m].variable;
                    assert(cur[q] == prev[q]);
                }
            }
            assert forall|q: int, l: int| 0 <= q < l < cur.len() implies (#[trigger] cur[q]) != (#[trigger] cur[l]) by {
                if l == prev.len() {
                    assert(is_shared_variable(seen, i - 1, prev[q]));
                    let m = choose|m: int| 0 <= m < i - 1 && (#[trigger] seen[m]).shared && seen[m].variable == prev[q];
                    assert(seen[m].variable != seen[i - 1].variable);
                    assert(cur[q] == prev[q]);
                } else {
                    assert(cur[q] == prev[q] && cur[l] == prev[l]);
                }
            }
        } else {
            assert(cur == prev);
            assert forall|q: int| 0 <= q < cur.len() implies #[trigger] is_shared_variable(seen, i, cur[q]) by {
                assert(is_shared_variable(seen, i - 1, prev[q]));
                let m = choose|m: int| 0 <= m < i - 1 && (#[trigger] seen[m]).shared && seen[m].variable == prev[q];
                assert(0 <= m < i);
            }
        }
    }
}

pub open spec fn distinct_ids<T>(s: Seq<(DescriptorId, T)>) -> bool {
    forall|i: int, j: int| 0 <= i < j < s.len() ==> (#[trigger] s[i]).0 != (#[trigger] s[j]).0
}

impl RegistryAllocator {
    /// The permanent variables of a rule: those met in two or more chunks,
    /// where chunk zero is the head with the first goal and chunk `i` is
    /// goal `i`. Each gets a slot of the environment frame; slots go in
    /// reverse order of first appearance.
    pub fn prepare_permanent_variables(
        rule: &AbstractRule,
        descriptor_allocator: &mut DescriptorAllocator,
    ) -> (r: Vec<(DescriptorId, usize)>)
        requires
            old(descriptor_allocator).wf(),
        ensures
            final(descriptor_allocator).wf(),
            old(descriptor_allocator).descriptors@.len() <= final(descriptor_allocator).descriptors@.len(),
            forall|i: int| 0 <= i < old(descriptor_allocator).descriptors@.len()
                ==> final(descriptor_allocator).descriptors@[i] == #[trigger] old(descriptor_allocator).descriptors@[i],
            distinct_ids(r@),
            forall|i: int| 0 <= i < r@.len() ==> (#[trigger] r@[i]).1 == r@.len() - 1 - i,
            forall|i: int| 0 <= i < r@.len() ==> {
                &&& (#[trigger] r@[i]).0.0 < final(descriptor_allocator).descriptors@.len()
                &&& final(descriptor_allocator).descriptors@[r@[i].0.0 as int].kind == DescriptorKind::Variable
                &&& is_permanent(*rule, final(descriptor_allocator).descriptors@[r@[i].0.0 as int].name@)
            },
            forall|name: Seq<char>| is_permanent(*rule, name) ==> exists|i: int|
                0 <= i < r@.len() && final(descriptor_allocator).descriptors@[(#[trigger] r@[i]).0.0 as int].name@ == name,
    {
        let mut seen: Vec<Occurrence> = Vec::new();
        let ghost d0 = *descriptor_allocator;
        proof {
            reveal(scanned);
        }
        record_variables(rule, 0, 0, descriptor_allocator, &mut seen);
        let mut g: usize = 0;
        while g < rule.goals.len()
            invariant
                descriptor_allocator.wf(),
                d0 == *old(descriptor_allocator),
                g <= rule.goals@.len(),
                d0.descriptors@.len() <= descriptor_allocator.descriptors@.len(),
                forall|i: int| 0 <= i < d0.descriptors@.len()
                    ==> descriptor_allocator.descriptors@[i] == #[trigger] d0.descriptors@[i],
                scanned(*rule, g + 1, *descriptor_allocator, seen@),
            decreases rule.goals@.len() - g,
        {
            record_variables(rule, g + 1, g, descriptor_allocator, &mut seen);
            g += 1;
        }
        let ghost descs = *descriptor_allocator;
        proof {
            reveal(scanned);
        }
        let mut shared: Vec<DescriptorId> = Vec::new();
        let mut i: usize = 0;
        while i < seen.len()
            invariant
                i <= seen@.len(),
                shared@ == shared_ids(seen@, i as int),
            decreases seen@.len() - i,
        {
            if seen[i].shared {
                shared.push(seen[i].variable);
            }
            i += 1;
        }
        proof {
            lemma_shared_ids(seen@, seen@.len() as int);
        }
        let count = shared.len();
        let mut result: Vec<(DescriptorId, usize)> = Vec::new();
        let mut j: usize = 0;
        while j < count
            invariant
                count == shared@.len(),
                j <= count,
                result@.len() == j,
                forall|q: int| 0 <= q < j ==> (#[trigger] result@[q]) == (shared@[q], (count - 1 - q) as usize),
            decreases count - j,
        {
            result.push((shared[j], count - 1 - j));
            j += 1;
        }
        proof {
            reveal(scanned);
            let total = rule.goals@.len() + 1int;
            assert forall|q: int| 0 <= q < result@.len() implies {
                &&& (#[trigger] result@[q]).0.0 < descs.descriptors@.len()
                &&& descs.descriptors@[result@[q].0.0 as int].kind == DescriptorKind::Variable
                &&& is_permanent(*rule, descs.descriptors@[result@[q].0.0 as int].name@)
            } by {
                assert(result@[q].0 == shared@[q]);
                assert(is_shared_variable(seen@, seen@.len() as int, shared@[q]));
                let m = choose|m: int| 0 <= m < seen@.len() && (#[trigger] seen@[m]).shared && seen@[m].variable == shared@[q];
                let e = seen@[m];
                let n = variable_name(descs, e.variable);
                let c = choose|c: int| c != e.first_chunk && #[trigger] occurs_in_chunk_before(*rule, total, c, n);
                assert(occurs_in_chunk(*rule, c, n) && occurs_in_chunk(*rule, e.first_chunk as int, n));
            }
            assert forall|name: Seq<char>| is_permanent(*rule, name) implies exists|q: int|
                0 <= q < result@.len() && descs.descriptors@[(#[trigger] result@[q]).0.0 as int].name@ == name by {
                let (c1, c2) = choose|c1: int, c2: int| c1 != c2 && #[trigger] occurs_in_chunk(*rule, c1, name) && #[trigger] occurs_in_chunk(*rule, c2, name);
                assert(occurs_in_chunk_before(*rule, total, c1, name));
                let m = choose|m: int| 0 <= m < seen@.len() && variable_name(descs, (#[trigger] seen@[m]).variable) == name;
                let e = seen@[m];
                if !e.shared {
                    assert(occurs_in_chunk_before(*rule, total, c2, name));
                }
                assert(shared@.contains(seen@[m].variable));
                let q = choose|q: int| 0 <= q < shared@.len() && shared@[q] == seen@[m].variable;
                assert(result@[q].0 == shared@[q]);
            }
        }
        result
    }
}

// ---------------------------------------------------------------------------
// The compiler

/// Why a clause or a query could not be compiled.
#[derive(Debug)]
pub enum CompileError {
    /// A goal or the query calls a functor that no clause defines yet.
    UndefinedFunctor { name: String, arity: usize },
    /// A clause head, a goal or the query is a bare variable.
    VariableTerm,
    /// A rule was given where a query was expected.
    RuleAsQuery,
    /// The term needs more registers than an index can number.
    TooManyRegisters,
}

/// The first clause of a functor starts at `address`; its most recent
/// clause starts at `last_slot`, and `clauses` clauses are linked.
#[derive(Debug, Clone, Copy, PartialEq, Eq, Structural)]
pub struct CallEntry {
    pub functor: DescriptorId,
    pub address: usize,
    pub last_slot: usize,
    pub clauses: usize,
}

/// Everything a machine needs to run a query.
#[derive(Debug)]
pub struct CompileArtifact {
    pub instructions: Vec<Instruction>,
    pub max_registers: usize,
    pub start_instruction_index: usize,
    pub inspection_variables: Vec<InspectionVariable>,
}

/// The code of one term, with the registers it was given.
pub struct IntermediateCompileArtifact {
    pub instructions: Vec<Instruction>,
    pub register_allocator: RegistryAllocator,
}

/// Accumulates the code of the program's clauses, then compiles queries
/// against it.
#[derive(Debug)]
pub struct Compiler {
    pub instructions: Vec<Instruction>,
    pub fact_call_map: Vec<CallEntry>,
    pub descriptor_allocator: DescriptorAllocator,
    pub max_registers: usize,
}

pub open spec fn call_entry_for(map: Seq<CallEntry>, d: DescriptorId) -> Option<CallEntry>
    decreases map.len(),
{
    if map.len() == 0 {
        None
    } else if map[0].functor == d {
        Some(map[0])
    } else {
        call_entry_for(map.drop_first(), d)
    }
}

fn find_call_entry(map: &Vec<CallEntry>, d: DescriptorId) -> (r: Option<usize>)
    ensures
        match call_entry_for(map@, d) {
            Some(e) => r is Some && r->0 < map@.len() && map@[r->0 as int] == e,
            None => r is None,
        },
        r is Some ==> forall|j: int| 0 <= j < r->0 ==> (#[trigger] map@[j]).functor != d,
{
    let mut i: usize = 0;
    assert(map@.subrange(0, map@.len() as int) =~= map@);
    while i < map.len()
        invariant
            i <= map@.len(),
            call_entry_for(map@, d) == call_entry_for(map@.subrange(i as int, map@.len() as int), d),
            forall|j: int| 0 <= j < i ==> (#[trigger] map@[j]).functor != d,
        decreases map@.len() - i,
    {
        assert(map@.subrange(i as int, map@.len() as int).drop_first() =~= map@.subrange(i + 1, map@.len() as int));
        if map[i].functor == d {
            return Some(i);
        }
        i += 1;
    }
    None
}

pub open spec fn max_arity(a: usize, b: usize) -> usize {
    if a >= b { a } else { b }
}

/// `ids` are the descriptors of the nodes of `t`, by key.
pub open spec fn ids_describe_nodes(t: TermTable, ids: Seq<DescriptorId>, descs: Seq<TermDescriptor>) -> bool {
    &&& ids.len() == t.nodes@.len()
    &&& forall|j: int|
        0 <= j < ids.len() ==> (#[trigger] ids[j]).0 < descs.len() && descs[ids[j].0 as int].key() == term_key(
            *t.nodes@[j].item.term,
        )
}

/// The registers of the nodes of `t` visited in the target's order.
pub open spec fn allocation_of(
    program: bool,
    t: TermTable,
    ids: Seq<DescriptorId>,
    permanents: Seq<(DescriptorId, usize)>,
    variables: Seq<(DescriptorId, RegisterId)>,
    first_temporary: usize,
) -> AllocationModel {
    let order = if program { fact_order(t) } else { query_order(t) };
    allocate_upto(initial_allocation(t.nodes@.len(), variables, first_temporary), t, ids, permanents, order, order.len() as int)
}

/// `result` is the code of `root` for the given target, or `None` when its
/// temporaries run past the largest index: `t` is the node table of `root`,
/// `ids` the descriptors of its nodes, the registers those allocated in the
/// target's traversal order (program terms in fact order, query terms in
/// query order), and the code what emission produces in that order,
/// starting from the variables `processed` that already have a value.
pub open spec fn compiled_from(
    program: bool,
    root: AbstractTerm,
    descs: Seq<TermDescriptor>,
    t: TermTable,
    ids: Seq<DescriptorId>,
    permanents: Seq<(DescriptorId, usize)>,
    variables: Seq<(DescriptorId, RegisterId)>,
    first_temporary: usize,
    processed: Seq<DescriptorId>,
    result: Option<IntermediateCompileArtifact>,
    processed_after: Seq<DescriptorId>,
) -> bool {
    let order = if program { fact_order(t) } else { query_order(t) };
    let alloc = allocation_of(program, t, ids, permanents, variables, first_temporary);
    &&& t.wf()
    &&& *t.nodes@[0].item.term == root
    &&& ids_describe_nodes(t, ids, descs)
    &&& match result {
        Some(a) => {
            &&& a.register_allocator.model() == alloc
            &&& (EmitModel { code: a.instructions@, processed: processed_after }) == emit_upto(
                program,
                t,
                ids,
                alloc,
                EmitModel { code: Seq::empty(), processed },
                order,
                order.len() as int,
            )
        },
        None => alloc.next > usize::MAX && processed_after == processed,
    }
}

/// See `compiled_from`.
pub open spec fn compiled(
    program: bool,
    root: AbstractTerm,
    descs: Seq<TermDescriptor>,
    permanents: Seq<(DescriptorId, usize)>,
    variables: Seq<(DescriptorId, RegisterId)>,
    first_temporary: usize,
    processed: Seq<DescriptorId>,
    result: Option<IntermediateCompileArtifact>,
    processed_after: Seq<DescriptorId>,
) -> bool {
    exists|t: TermTable, ids: Seq<DescriptorId>|
        #[trigger] compiled_from(
            program,
            root,
            descs,
            t,
            ids,
            permanents,
            variables,
            first_temporary,
            processed,
            result,
            processed_after,
        )
}

/// What held of the descriptors then holds of a table that extends them.
pub proof fn lemma_compiled_grow(
    program: bool,
    root: AbstractTerm,
    d1: Seq<TermDescriptor>,
    d2: Seq<TermDescriptor>,
    permanents: Seq<(DescriptorId, usize)>,
    variables: Seq<(DescriptorId, RegisterId)>,
    first_temporary: usize,
    processed: Seq<DescriptorId>,
    result: Option<IntermediateCompileArtifact>,
    processed_after: Seq<DescriptorId>,
)
    requires
        compiled(program, root, d1, permanents, variables, first_temporary, processed, result, processed_after),
        d1.len() <= d2.len(),
        forall|i: int| 0 <= i < d1.len() ==> d2[i] == #[trigger] d1[i],
    ensures
        compiled(program, root, d2, permanents, variables, first_temporary, processed, result, processed_after),
{
    let (t, ids) = choose|t: TermTable, ids: Seq<DescriptorId>|
        #[trigger] compiled_from(program, root, d1, t, ids, permanents, variables, first_temporary, processed, result, processed_after);
    assert forall|j: int| 0 <= j < ids.len() implies (#[trigger] ids[j]).0 < d2.len() && d2[ids[j].0 as int].key() == term_key(
        *t.nodes@[j].item.term,
    ) by {
        assert(d2[ids[j].0 as int] == d1[ids[j].0 as int]);
    }
    assert(compiled_from(program, root, d2, t, ids, permanents, variables, first_temporary, processed, result, processed_after));
}

impl Compiler {
    pub open spec fn wf(&self) -> bool {
        &&& self.descriptor_allocator.wf()
        &&& forall|i: int| 0 <= i < self.fact_call_map@.len()
            ==> (#[trigger] self.fact_call_map@[i]).functor.0 < self.descriptor_allocator.descriptors@.len()
    }

    /// Whether some clause defines the functor with this key.
    pub open spec fn defines(&self, key: (Seq<char>, int)) -> bool {
        exists|i: int| 0 <= i < self.fact_call_map@.len()
            && self.descriptor_allocator.descriptors@[(#[trigger] self.fact_call_map@[i]).functor.0 as int].key() == key
    }

    pub fn new() -> (r: Self)
        ensures
            r.wf(),
            r.instructions@.len() == 0,
            r.fact_call_map@.len() == 0,
            r.descriptor_allocator.descriptors@.len() == 0,
            r.max_registers == 0,
    {
        Compiler {
            instructions: Vec::new(),
            fact_call_map: Vec::new(),
            descriptor_allocator: DescriptorAllocator::new(),
            max_registers: 0,
        }
    }

    /// Forgets every clause and descriptor.
    pub fn reset(&mut self)
        ensures
            final(self).wf(),
            final(self).instructions@.len() == 0,
            final(self).fact_call_map@.len() == 0,
            final(self).descriptor_allocator.descriptors@.len() == 0,
            final(self).max_registers == 0,
    {
        self.max_registers = 0;
        self.instructions.clear();
        self.fact_call_map.clear();
        self.descriptor_allocator = DescriptorAllocator::new();
    }

    /// Compiles `root` for target `T`: program terms in fact order, query
    /// terms in query order. Registers come from `variables` (registers
    /// already given to variables), the permanent slots, and temporaries from
    /// `first_temporary` on.
    fn compile_for_target<T: CompileTarget>(
        &mut self,
        root: &AbstractTerm,
        permanent_variables: &Vec<(DescriptorId, usize)>,
        processed_vars: &mut Vec<DescriptorId>,
        variables: Vec<(DescriptorId, RegisterId)>,
        first_temporary: usize,
    ) -> (r: Option<IntermediateCompileArtifact>)
        requires
            old(self).wf(),
        ensures
            final(self).wf(),
            final(self).instructions == old(self).instructions,
            final(self).fact_call_map == old(self).fact_call_map,
            old(self).descriptor_allocator.descriptors@.len() <= final(self).descriptor_allocator.descriptors@.len(),
            forall|i: int| 0 <= i < old(self).descriptor_allocator.descriptors@.len()
                ==> final(self).descriptor_allocator.descriptors@[i] == #[trigger] old(self).descriptor_allocator.descriptors@[i],
            compiled(
                T::program_mode(),
                *root,
                final(self).descriptor_allocator.descriptors@,
                permanent_variables@,
                variables@,
                first_temporary,
                old(processed_vars)@,
                r,
                final(processed_vars)@,
            ),
            r is Some ==> r->0.register_allocator.next_temporary <= final(self).max_registers,
            r is Some ==> old(self).max_registers <= final(self).max_registers,
    {
        let ghost variables0 = variables@;
        let table = TermTable::new(root);
        let node_ids = intern_nodes(&table, &mut self.descriptor_allocator);
        let order = if T::is_program() {
            table.fact_order()
        } else {
            table.query_order()
        };
        proof {
            assert forall|i: int| 0 <= i < order@.len() implies (#[trigger] order@[i]) < table.nodes@.len() by {
                if T::program_mode() {
                    lemma_fact_order_in_range(table, i);
                } else {
                    lemma_query_order_in_range(table, i);
                }
            }
        }
        let ghost descs = self.descriptor_allocator.descriptors@;
        assert(ids_describe_nodes(table, node_ids@, descs));
        let alloc = match RegistryAllocator::new(&table, &order, &node_ids, permanent_variables, variables, first_temporary) {
            Some(a) => a,
            None => {
                assert(compiled_from(
                    T::program_mode(),
                    *root,
                    descs,
                    table,
                    node_ids@,
                    permanent_variables@,
                    variables0,
                    first_temporary,
                    old(processed_vars)@,
                    None,
                    processed_vars@,
                ));
                return None;
            },
        };
        let mut code: Vec<Instruction> = Vec::new();
        emit::<T>(&table, &order, &node_ids, &alloc, processed_vars, &mut code);
        if alloc.next_temporary > self.max_registers {
            self.max_registers = alloc.next_temporary;
        }
        let r = IntermediateCompileArtifact { instructions: code, register_allocator: alloc };
        assert(compiled_from(
            T::program_mode(),
            *root,
            descs,
            table,
            node_ids@,
            permanent_variables@,
            variables0,
            first_temporary,
            old(processed_vars)@,
            Some(r),
            processed_vars@,
        ));
        Some(r)
    }
}

pub proof fn lemma_call_entry_none(map: Seq<CallEntry>, d: DescriptorId)
    ensures
        call_entry_for(map, d) is Some ==> call_entry_for(map, d)->0.functor == d,
        call_entry_for(map, d) is None <==> forall|i: int| 0 <= i < map.len() ==> (#[trigger] map[i]).functor != d,
        call_entry_for(map, d) is Some ==> exists|i: int| 0 <= i < map.len() && #[trigger] map[i] == call_entry_for(map, d)->0,
    decreases map.len(),
{
    if map.len() > 0 {
        lemma_call_entry_none(map.drop_first(), d);
        if map[0].functor != d {
            assert forall|i: int| 1 <= i < map.len() implies #[trigger] map[i] == map.drop_first()[i - 1] by {}
            if call_entry_for(map, d) is Some {
                let j = choose|j: int| 0 <= j < map.drop_first().len() && #[trigger] map.drop_first()[j] == call_entry_for(map, d)->0;
                assert(map[j + 1] == map.drop_first()[j]);
            }
        }
    }
}

fn copy_instructions(v: &Vec<Instruction>) -> (r: Vec<Instruction>)
    ensures
        r@ == v@,
{
    let mut out: Vec<Instruction> = Vec::new();
    let mut i: usize = 0;
    while i < v.len()
        invariant
            i <= v@.len(),
            out@ == v@.subrange(0, i as int),
        decreases v@.len() - i,
    {
        out.push(v[i]);
        i += 1;
        assert(out@ =~= v@.subrange(0, i as int));
    }
    assert(v@.subrange(0, v@.len() as int) =~= v@);
    out
}

fn append_instructions(out: &mut Vec<Instruction>, v: &Vec<Instruction>)
    ensures
        final(out)@ == old(out)@ + v@,
{
    let mut i: usize = 0;
    while i < v.len()
        invariant
            i <= v@.len(),
            out@ == old(out)@ + v@.subrange(0, i as int),
        decreases v@.len() - i,
    {
        out.push(v[i]);
        i += 1;
        assert(out@ =~= old(out)@ + v@.subrange(0, i as int));
    }
    assert(v@.subrange(0, v@.len() as int) =~= v@);
}

/// The code after a new clause of functor `d` is linked in at the end of
/// `code`: the slot of the functor's previous clause becomes `TryMeElse`
/// (after its first clause) or `RetryMeElse` (after a later one) to the new
/// clause, and the new clause's own slot is `NoOp` for a first clause and
/// `TrustMe` for a later one.
pub open spec fn link_slot(code: Seq<Instruction>, map: Seq<CallEntry>, d: DescriptorId) -> Seq<Instruction> {
    match call_entry_for(map, d) {
        None => code.push(Instruction::NoOp),
        Some(e) => {
            let slot = code.len() as usize;
            let linked = if e.clauses == 1 {
                Instruction::TryMeElse { else_address: slot }
            } else {
                Instruction::RetryMeElse { else_address: slot }
            };
            let patched = if e.last_slot < code.len() && (code[e.last_slot as int] is NoOp
                || code[e.last_slot as int] is TrustMe) {
                code.update(e.last_slot as int, linked)
            } else {
                code
            };
            patched.push(Instruction::TrustMe)
        },
    }
}

/// Where calls to functor `d` go once a clause starting at `slot` is added:
/// the address of its first clause.
pub open spec fn clause_address(map: Seq<CallEntry>, d: DescriptorId, slot: int) -> int {
    match call_entry_for(map, d) {
        Some(e) => e.address as int,
        None => slot,
    }
}

/// The instruction in front of a clause: nothing for the first clause of a
/// functor, `TrustMe` for a later one (the clause before it is then linked
/// to it with `TryMeElse` or `RetryMeElse`).
pub open spec fn opens_clause(old_map: Seq<CallEntry>, d: DescriptorId, ins: Instruction) -> bool {
    if call_entry_for(old_map, d) is Some {
        ins == Instruction::TrustMe
    } else {
        ins == Instruction::NoOp
    }
}

impl Compiler {
    /// Links a new clause of functor `d` that will start at the current end
    /// of the code: records its address, turns the slot of the previous
    /// clause of `d` into a choice instruction, and appends its own slot.
    fn open_clause(&mut self, d: DescriptorId)
        requires
            old(self).wf(),
            d.0 < old(self).descriptor_allocator.descriptors@.len(),
        ensures
            final(self).wf(),
            final(self).descriptor_allocator == old(self).descriptor_allocator,
            final(self).max_registers == old(self).max_registers,
            final(self).instructions@.len() == old(self).instructions@.len() + 1,
            final(self).instructions@ == link_slot(old(self).instructions@, old(self).fact_call_map@, d),
            call_entry_for(final(self).fact_call_map@, d) is Some,
            call_entry_for(final(self).fact_call_map@, d)->0.address == clause_address(
                old(self).fact_call_map@,
                d,
                old(self).instructions@.len() as int,
            ),
            call_entry_for(final(self).fact_call_map@, d)->0.last_slot == old(self).instructions@.len(),
            opens_clause(old(self).fact_call_map@, d, final(self).instructions@.last()),
            forall|i: int| 0 <= i < old(self).instructions@.len() && !(old(self).instructions@[i] is NoOp
                || old(self).instructions@[i] is TrustMe) ==> final(self).instructions@[i] == #[trigger] old(self).instructions@[i],
            call_entry_for(final(self).fact_call_map@, d) is Some,
            call_entry_for(old(self).fact_call_map@, d) is Some ==> call_entry_for(final(self).fact_call_map@, d)->0.address
                == call_entry_for(old(self).fact_call_map@, d)->0.address,
            call_entry_for(old(self).fact_call_map@, d) is None ==> call_entry_for(final(self).fact_call_map@, d)->0.address
                == old(self).instructions@.len(),
            forall|e: DescriptorId| e != d ==> call_entry_for(final(self).fact_call_map@, e) == call_entry_for(old(self).fact_call_map@, e),
    {
        let slot = self.instructions.len();
        match find_call_entry(&self.fact_call_map, d) {
            None => {
                proof { lemma_call_entry_none(self.fact_call_map@, d); }
                let ghost before = self.fact_call_map@;
                self.fact_call_map.push(CallEntry { functor: d, address: slot, last_slot: slot, clauses: 1 });
                proof { lemma_call_entry_push(before, CallEntry { functor: d, address: slot, last_slot: slot, clauses: 1 }); }
                self.instructions.push(Instruction::NoOp);
            },
            Some(i) => {
                let e = self.fact_call_map[i];
                if e.last_slot < self.instructions.len() {
                    let linked = if e.clauses == 1 {
                        Instruction::TryMeElse { else_address: slot }
                    } else {
                        Instruction::RetryMeElse { else_address: slot }
                    };
                    if matches!(self.instructions[e.last_slot], Instruction::NoOp | Instruction::TrustMe) {
                        self.instructions.set(e.last_slot, linked);
                    }
                }
                let clauses = if e.clauses < usize::MAX { e.clauses + 1 } else { e.clauses };
                let ghost before = self.fact_call_map@;
                proof { lemma_call_entry_none(before, d); }
                let updated = CallEntry { functor: d, address: e.address, last_slot: slot, clauses };
                self.fact_call_map.set(i, updated);
                proof { lemma_call_entry_update(before, i as int, updated); }
                self.instructions.push(Instruction::TrustMe);
            },
        }
    }
}

pub proof fn lemma_call_entry_push(map: Seq<CallEntry>, e: CallEntry)
    requires
        call_entry_for(map, e.functor) is None,
    ensures
        call_entry_for(map.push(e), e.functor) == Some(e),
        forall|d: DescriptorId| d != e.functor ==> call_entry_for(map.push(e), d) == call_entry_for(map, d),
    decreases map.len(),
{
    if map.len() > 0 {
        assert(map.push(e).drop_first() =~= map.drop_first().push(e));
        lemma_call_entry_push(map.drop_first(), e);
        assert forall|d: DescriptorId| d != e.functor implies call_entry_for(map.push(e), d) == call_entry_for(map, d) by {
            assert(map.push(e)[0] == map[0]);
            if map[0].functor != d {
                assert(call_entry_for(map.push(e), d) == call_entry_for(map.push(e).drop_first(), d));
                assert(call_entry_for(map.drop_first().push(e), d) == call_entry_for(map.drop_first(), d));
            }
        }
    } else {
        assert(map.push(e).drop_first() =~= Seq::<CallEntry>::empty());
        assert forall|d: DescriptorId| d != e.functor implies call_entry_for(map.push(e), d) == call_entry_for(map, d) by {
            assert(map.push(e)[0] == e);
            assert(call_entry_for(Seq::<CallEntry>::empty(), d) is None);
        }
    }
}

pub proof fn lemma_call_entry_update(map: Seq<CallEntry>, i: int, e: CallEntry)
    requires
        0 <= i < map.len(),
        map[i].functor == e.functor,
        call_entry_for(map, e.functor) == Some(map[i]),
        forall|j: int| 0 <= j < i ==> (#[trigger] map[j]).functor != e.functor,
    ensures
        call_entry_for(map.update(i, e), e.functor) == Some(e),
        forall|d: DescriptorId| d != e.functor ==> call_entry_for(map.update(i, e), d) == call_entry_for(map, d),
    decreases map.len(),
{
    if i > 0 {
        assert(map.update(i, e).drop_first() =~= map.drop_first().update(i - 1, e));
        assert forall|j: int| 0 <= j < i - 1 implies (#[trigger] map.drop_first()[j]).functor != e.functor by {
            assert(map.drop_first()[j] == map[j + 1]);
        }
        lemma_call_entry_update(map.drop_first(), i - 1, e);
        assert forall|d: DescriptorId| d != e.functor implies call_entry_for(map.update(i, e), d) == call_entry_for(map, d) by {
            assert(map.update(i, e)[0] == map[0]);
            if map[0].functor != d {
                assert(call_entry_for(map.update(i, e), d) == call_entry_for(map.update(i, e).drop_first(), d));
                assert(call_entry_for(map.drop_first().update(i - 1, e), d) == call_entry_for(map.drop_first(), d));
            }
        }
    } else {
        assert(map.update(i, e).drop_first() =~= map.drop_first());
        assert forall|d: DescriptorId| d != e.functor implies call_entry_for(map.update(i, e), d) == call_entry_for(map, d) by {
            assert(map.update(i, e)[0] == e);
            assert(call_entry_for(map.update(i, e), d) == call_entry_for(map.update(i, e).drop_first(), d));
            assert(call_entry_for(map, d) == call_entry_for(map.drop_first(), d));
        }
    }
}

/// Whether a goal calls a functor that is neither defined yet nor the head's.
pub open spec fn goal_undefined(c: Compiler, head: AbstractTerm, goal: AbstractTerm) -> bool {
    !c.defines(term_key(goal)) && term_key(goal) != term_key(head)
}

/// `new` is `old` after adding `fact`: its head compiled (in fact order,
/// from temporary `arity` on) into `result`, and, when the temporaries fit,
/// the code grown by the linked clause slot, a comment, the head's code and
/// `Proceed`, with calls to the functor `d` going to its first clause.
pub open spec fn fact_added(
    old: Compiler,
    new: Compiler,
    fact: AbstractFact,
    result: Option<IntermediateCompileArtifact>,
    after: Seq<DescriptorId>,
    d: DescriptorId,
) -> bool {
    &&& compiled(
        true,
        fact.term,
        new.descriptor_allocator.descriptors@,
        Seq::empty(),
        Seq::empty(),
        fact.term.spec_arity() as usize,
        Seq::empty(),
        result,
        after,
    )
    &&& result matches Some(a) ==> {
        &&& d.0 < new.descriptor_allocator.descriptors@.len()
        &&& new.descriptor_allocator.descriptors@[d.0 as int].key() == term_key(fact.term)
        &&& new.instructions@ == link_slot(old.instructions@, old.fact_call_map@, d) + seq![
            Instruction::DebugComment { functor: d, section: CommentSection::Clause },
        ] + a.instructions@ + seq![Instruction::Proceed]
        &&& call_entry_for(new.fact_call_map@, d) is Some
        &&& call_entry_for(new.fact_call_map@, d)->0.address == clause_address(
            old.fact_call_map@,
            d,
            old.instructions@.len() as int,
        )
    }
}

impl Compiler {
    fn undefined_functor(term: &AbstractTerm) -> (r: CompileError)
        ensures
            r matches CompileError::UndefinedFunctor { name, arity } && name@ == term.spec_name() && arity
                == term.spec_arity(),
    {
        let name = match term {
            AbstractTerm::Variable(n) => n.clone(),
            AbstractTerm::Constant(n) => n.clone(),
            AbstractTerm::Structure(n, _) => n.clone(),
        };
        CompileError::UndefinedFunctor { name, arity: term.arity() }
    }

    /// Interns `term` and returns the call entry of its functor, if a clause
    /// defines it.
    fn entry_of(&mut self, term: &AbstractTerm) -> (r: (DescriptorId, Option<CallEntry>))
        requires
            old(self).wf(),
        ensures
            final(self).wf(),
            final(self).instructions == old(self).instructions,
            final(self).fact_call_map == old(self).fact_call_map,
            final(self).max_registers == old(self).max_registers,
            old(self).descriptor_allocator.descriptors@.len() <= final(self).descriptor_allocator.descriptors@.len(),
            forall|i: int| 0 <= i < old(self).descriptor_allocator.descriptors@.len()
                ==> final(self).descriptor_allocator.descriptors@[i] == #[trigger] old(self).descriptor_allocator.descriptors@[i],
            r.0.0 < final(self).descriptor_allocator.descriptors@.len(),
            final(self).descriptor_allocator.descriptors@[r.0.0 as int].key() == term_key(*term),
            r.1 == call_entry_for(final(self).fact_call_map@, r.0),
            r.1 is None <==> !old(self).defines(term_key(*term)),
            r.1 is None <==> !final(self).defines(term_key(*term)),
    {
        let d = self.descriptor_allocator.get_or_set(term);
        let entry = match find_call_entry(&self.fact_call_map, d) {
            Some(i) => Some(self.fact_call_map[i]),
            None => None,
        };
        proof {
            lemma_call_entry_none(self.fact_call_map@, d);
            let descs = self.descriptor_allocator.descriptors@;
            if entry is None {
                assert forall|i: int| 0 <= i < self.fact_call_map@.len() implies descs[(#[trigger] self.fact_call_map@[i]).functor.0 as int].key()
                    != term_key(*term) by {
                    assert(self.fact_call_map@[i].functor != d);
                }
            } else {
                let i = choose|i: int| 0 <= i < self.fact_call_map@.len() && #[trigger] self.fact_call_map@[i] == entry->0;
                assert(self.fact_call_map@[i].functor == d);
            }
        }
        (d, entry)
    }

    /// Adds a fact: its head is matched with get/unify instructions and
    /// `Proceed` returns to the caller.
    pub fn add_fact(&mut self, fact: &AbstractFact) -> (r: Result<(), CompileError>)
        requires
            old(self).wf(),
        ensures
            final(self).wf(),
            fact.term is Variable <==> r matches Err(CompileError::VariableTerm),
            r is Err ==> final(self).instructions == old(self).instructions && final(self).fact_call_map
                == old(self).fact_call_map,
            r is Err ==> r matches Err(CompileError::VariableTerm) || r matches Err(CompileError::TooManyRegisters),
            !(fact.term is Variable) ==> exists|result: Option<IntermediateCompileArtifact>, after: Seq<DescriptorId>, d: DescriptorId|
                #[trigger] fact_added(*old(self), *final(self), *fact, result, after, d) && (result is None <==> r is Err),
            r is Ok ==> final(self).defines(term_key(fact.term)),
            r is Ok ==> final(self).instructions@.len() > old(self).instructions@.len() + 1,
            r is Ok ==> final(self).instructions@.last() == Instruction::Proceed,
            fact_result(*old(self), *final(self), *fact, r),
            r is Ok ==> forall|i: int| 0 <= i < old(self).instructions@.len() && !(old(self).instructions@[i] is NoOp
                || old(self).instructions@[i] is TrustMe) ==> final(self).instructions@[i] == #[trigger] old(self).instructions@[i],
    {
        if let AbstractTerm::Variable(_) = fact.term {
            return Err(CompileError::VariableTerm);
        }
        let mut processed: Vec<DescriptorId> = Vec::new();
        let no_permanents: Vec<(DescriptorId, usize)> = Vec::new();
        let ghost start = *self;
        let built = self.compile_for_target::<ProgramTarget>(&fact.term, &no_permanents, &mut processed, Vec::new(), fact.term.arity());
        let artifact = match built {
            Some(a) => a,
            None => {
                assert(fact_added(start, *self, *fact, None, processed@, DescriptorId(0)));
                return Err(CompileError::TooManyRegisters);
            },
        };
        let ghost descs1 = self.descriptor_allocator.descriptors@;
        let (d, _) = self.entry_of(&fact.term);
        proof {
            lemma_compiled_grow(
                true,
                fact.term,
                descs1,
                self.descriptor_allocator.descriptors@,
                Seq::empty(),
                Seq::empty(),
                fact.term.spec_arity() as usize,
                Seq::empty(),
                Some(artifact),
                processed@,
            );
        }
        let ghost before_open = self.instructions@;
        self.open_clause(d);
        let ghost linked = self.instructions@;
        self.instructions.push(Instruction::DebugComment { functor: d, section: CommentSection::Clause });
        append_instructions(&mut self.instructions, &artifact.instructions);
        self.instructions.push(Instruction::Proceed);
        assert(self.instructions@ =~= link_slot(start.instructions@, start.fact_call_map@, d) + seq![
            Instruction::DebugComment { functor: d, section: CommentSection::Clause },
        ] + artifact.instructions@ + seq![Instruction::Proceed]);
        assert(fact_added(start, *self, *fact, Some(artifact), processed@, d));
        proof {
            let descs = self.descriptor_allocator.descriptors@;
            lemma_call_entry_none(self.fact_call_map@, d);
            let i = choose|i: int| 0 <= i < self.fact_call_map@.len() && #[trigger] self.fact_call_map@[i] == call_entry_for(self.fact_call_map@, d)->0;
            assert(self.fact_call_map@[i].functor == d);
            assert(descs[self.fact_call_map@[i].functor.0 as int].key() == term_key(fact.term));
        }
        Ok(())
    }
}

pub proof fn lemma_defines_stable(a: Compiler, b: Compiler, key: (Seq<char>, int))
    requires
        a.wf(),
        a.fact_call_map == b.fact_call_map,
        a.descriptor_allocator.descriptors@.len() <= b.descriptor_allocator.descriptors@.len(),
        forall|i: int| 0 <= i < a.descriptor_allocator.descriptors@.len()
            ==> b.descriptor_allocator.descriptors@[i] == #[trigger] a.descriptor_allocator.descriptors@[i],
    ensures
        a.defines(key) == b.defines(key),
{
    if a.defines(key) {
        let i = choose|i: int| 0 <= i < a.fact_call_map@.len()
            && a.descriptor_allocator.descriptors@[(#[trigger] a.fact_call_map@[i]).functor.0 as int].key() == key;
        assert(b.descriptor_allocator.descriptors@[(b.fact_call_map@[i]).functor.0 as int].key() == key);
    }
    if b.defines(key) {
        let i = choose|i: int| 0 <= i < b.fact_call_map@.len()
            && b.descriptor_allocator.descriptors@[(#[trigger] b.fact_call_map@[i]).functor.0 as int].key() == key;
        assert(a.descriptor_allocator.descriptors@[(a.fact_call_map@[i]).functor.0 as int].key() == key);
    }
}


/// `perms` are the permanent variables of `rule` with their slots, as
/// `prepare_permanent_variables` finds them.
pub open spec fn permanent_plan(rule: AbstractRule, descs: Seq<TermDescriptor>, perms: Seq<(DescriptorId, usize)>) -> bool {
    &&& distinct_ids(perms)
    &&& forall|i: int| 0 <= i < perms.len() ==> (#[trigger] perms[i]).1 == perms.len() - 1 - i
    &&& forall|i: int| 0 <= i < perms.len() ==> {
        &&& (#[trigger] perms[i]).0.0 < descs.len()
        &&& descs[perms[i].0.0 as int].kind == DescriptorKind::Variable
        &&& is_permanent(rule, descs[perms[i].0.0 as int].name@)
    }
    &&& forall|name: Seq<char>| is_permanent(rule, name) ==> exists|i: int|
        0 <= i < perms.len() && descs[(#[trigger] perms[i]).0.0 as int].name@ == name
}

/// The first temporary register of a rule's head: above the arguments of
/// the head and of the first goal, which share its temporaries.
pub open spec fn rule_first_temporary(rule: AbstractRule) -> usize {
    let h = rule.head.spec_arity() as usize;
    let g = if rule.goals@.len() > 0 { rule.goals@[0].spec_arity() as usize } else { 0 };
    if h >= g { h } else { g }
}

/// The registers goal `g` starts from: the first goal continues with the
/// head's variables and temporaries, a later goal starts afresh after its
/// own arguments.
pub open spec fn goal_variables(head: IntermediateCompileArtifact, g: int) -> Seq<(DescriptorId, RegisterId)> {
    if g == 0 {
        head.register_allocator.variable_registers@
    } else {
        Seq::empty()
    }
}

pub open spec fn goal_first_temporary(rule: AbstractRule, head: IntermediateCompileArtifact, g: int) -> usize {
    if g == 0 {
        head.register_allocator.next_temporary
    } else {
        rule.goals@[g].spec_arity() as usize
    }
}

/// Goals `0..k` compiled in turn: `arts[g]` is the code of goal `g`, and
/// `procs[g]` the variables with a value before it (`procs[0]` after the
/// head).
pub open spec fn goals_compiled(
    rule: AbstractRule,
    descs: Seq<TermDescriptor>,
    perms: Seq<(DescriptorId, usize)>,
    head: IntermediateCompileArtifact,
    arts: Seq<IntermediateCompileArtifact>,
    procs: Seq<Seq<DescriptorId>>,
    k: int,
) -> bool {
    &&& arts.len() == k
    &&& procs.len() == k + 1
    &&& forall|g: int|
        0 <= g < k ==> compiled(
            false,
            rule.goals@[g],
            descs,
            perms,
            goal_variables(head, g),
            goal_first_temporary(rule, head, g),
            procs[g],
            Some(#[trigger] arts[g]),
            procs[g + 1],
        )
}

/// The code of goal `g` in a rule body: a comment, the goal's code and a
/// call to its functor.
pub open spec fn goal_part(d: DescriptorId, a: IntermediateCompileArtifact, address: usize) -> Seq<Instruction> {
    seq![Instruction::DebugComment { functor: d, section: CommentSection::Goal }] + a.instructions@ + seq![
        Instruction::Call { address, functor: d },
    ]
}

pub open spec fn goal_parts(arts: Seq<IntermediateCompileArtifact>, gds: Seq<DescriptorId>, map: Seq<CallEntry>) -> Seq<Seq<Instruction>> {
    Seq::new(arts.len(), |g: int| goal_part(gds[g], arts[g], call_entry_for(map, gds[g])->0.address))
}

pub open spec fn local_parts(arts: Seq<IntermediateCompileArtifact>, gds: Seq<DescriptorId>, addrs: Seq<usize>) -> Seq<Seq<Instruction>> {
    Seq::new(arts.len(), |g: int| goal_part(gds[g], arts[g], addrs[g]))
}

/// What adding `rule` ended with: the rule added, or the registers ran out.
pub open spec fn rule_outcome(
    old: Compiler,
    new: Compiler,
    rule: AbstractRule,
    r: Result<(), CompileError>,
    perms: Seq<(DescriptorId, usize)>,
    head: Option<IntermediateCompileArtifact>,
    arts: Seq<IntermediateCompileArtifact>,
    procs: Seq<Seq<DescriptorId>>,
    gds: Seq<DescriptorId>,
    head_d: DescriptorId,
) -> bool {
    ||| r is Ok && head is Some && rule_added(old, new, rule, perms, head->0, arts, procs, gds, head_d)
    ||| r matches Err(CompileError::TooManyRegisters) && rule_overflows(
        rule,
        new.descriptor_allocator.descriptors@,
        perms,
        head,
        arts,
        procs,
    )
}

/// `new` is `old` after adding `rule`: the code grown by the linked clause
/// slot, a comment, `Allocate` for the permanent variables, the head's
/// code, a comment, each goal's code with a call to the first clause of its
/// functor, and `Deallocate`.
pub open spec fn rule_added(
    old: Compiler,
    new: Compiler,
    rule: AbstractRule,
    perms: Seq<(DescriptorId, usize)>,
    head: IntermediateCompileArtifact,
    arts: Seq<IntermediateCompileArtifact>,
    procs: Seq<Seq<DescriptorId>>,
    gds: Seq<DescriptorId>,
    head_d: DescriptorId,
) -> bool {
    let descs = new.descriptor_allocator.descriptors@;
    &&& permanent_plan(rule, descs, perms)
    &&& compiled(true, rule.head, descs, perms, Seq::empty(), rule_first_temporary(rule), Seq::empty(), Some(head), procs[0])
    &&& goals_compiled(rule, descs, perms, head, arts, procs, rule.goals@.len() as int)
    &&& gds.len() == rule.goals@.len()
    &&& forall|g: int|
        0 <= g < gds.len() ==> (#[trigger] gds[g]).0 < descs.len() && descs[gds[g].0 as int].key() == term_key(rule.goals@[g])
            && call_entry_for(new.fact_call_map@, gds[g]) is Some
    &&& head_d.0 < descs.len()
    &&& descs[head_d.0 as int].key() == term_key(rule.head)
    &&& call_entry_for(new.fact_call_map@, head_d) is Some
    &&& call_entry_for(new.fact_call_map@, head_d)->0.address == clause_address(
        old.fact_call_map@,
        head_d,
        old.instructions@.len() as int,
    )
    &&& new.instructions@ == link_slot(old.instructions@, old.fact_call_map@, head_d) + seq![
        Instruction::DebugComment { functor: head_d, section: CommentSection::Head },
        Instruction::Allocate { variables: perms.len() as usize },
    ] + head.instructions@ + seq![Instruction::DebugComment { functor: head_d, section: CommentSection::Body }]
        + goal_parts(arts, gds, new.fact_call_map@).flatten() + seq![Instruction::Deallocate]
}

/// Adding `rule` stopped because the temporaries of its head, or of goal
/// `arts.len()` after the goals before it, run past the largest index.
pub open spec fn rule_overflows(
    rule: AbstractRule,
    descs: Seq<TermDescriptor>,
    perms: Seq<(DescriptorId, usize)>,
    head: Option<IntermediateCompileArtifact>,
    arts: Seq<IntermediateCompileArtifact>,
    procs: Seq<Seq<DescriptorId>>,
) -> bool {
    &&& permanent_plan(rule, descs, perms)
    &&& compiled(true, rule.head, descs, perms, Seq::empty(), rule_first_temporary(rule), Seq::empty(), head, procs[0])
    &&& procs.len() >= 1
    &&& match head {
        None => true,
        Some(h) => {
            let k = arts.len() as int;
            &&& k < rule.goals@.len()
            &&& goals_compiled(rule, descs, perms, h, arts, procs, k)
            &&& compiled(false, rule.goals@[k], descs, perms, goal_variables(h, k), goal_first_temporary(rule, h, k), procs[k], None, procs[k])
        },
    }
}

proof fn lemma_permanent_plan_grow(rule: AbstractRule, d1: Seq<TermDescriptor>, d2: Seq<TermDescriptor>, perms: Seq<(DescriptorId, usize)>)
    requires
        permanent_plan(rule, d1, perms),
        d1.len() <= d2.len(),
        forall|i: int| 0 <= i < d1.len() ==> d2[i] == #[trigger] d1[i],
    ensures
        permanent_plan(rule, d2, perms),
{
    assert forall|i: int| 0 <= i < perms.len() implies d2[(#[trigger] perms[i]).0.0 as int] == d1[perms[i].0.0 as int] by {}
    assert forall|name: Seq<char>| is_permanent(rule, name) implies exists|i: int|
        0 <= i < perms.len() && d2[(#[trigger] perms[i]).0.0 as int].name@ == name by {
        let i = choose|i: int| 0 <= i < perms.len() && d1[(#[trigger] perms[i]).0.0 as int].name@ == name;
        assert(d2[perms[i].0.0 as int] == d1[perms[i].0.0 as int]);
    }
}

proof fn lemma_goals_compiled_grow(
    rule: AbstractRule,
    d1: Seq<TermDescriptor>,
    d2: Seq<TermDescriptor>,
    perms: Seq<(DescriptorId, usize)>,
    head: IntermediateCompileArtifact,
    arts: Seq<IntermediateCompileArtifact>,
    procs: Seq<Seq<DescriptorId>>,
    k: int,
)
    requires
        goals_compiled(rule, d1, perms, head, arts, procs, k),
        d1.len() <= d2.len(),
        forall|i: int| 0 <= i < d1.len() ==> d2[i] == #[trigger] d1[i],
    ensures
        goals_compiled(rule, d2, perms, head, arts, procs, k),
{
    assert forall|g: int| 0 <= g < k implies compiled(
        false,
        rule.goals@[g],
        d2,
        perms,
        goal_variables(head, g),
        goal_first_temporary(rule, head, g),
        procs[g],
        Some(#[trigger] arts[g]),
        procs[g + 1],
    ) by {
        lemma_compiled_grow(false, rule.goals@[g], d1, d2, perms, goal_variables(head, g), goal_first_temporary(rule, head, g), procs[g], Some(arts[g]), procs[g + 1]);
    }
}

/// How adding `fact` to `old` ends in `new` with `r`: refused when it is a
/// variable, otherwise added as `fact_added` says, unless its registers ran
/// out.
pub open spec fn fact_result(old: Compiler, new: Compiler, fact: AbstractFact, r: Result<(), CompileError>) -> bool {
    &&& (fact.term is Variable <==> r matches Err(CompileError::VariableTerm))
    &&& !(fact.term is Variable) ==> exists|result: Option<IntermediateCompileArtifact>, after: Seq<DescriptorId>, d: DescriptorId|
        #[trigger] fact_added(old, new, fact, result, after, d) && (result is None <==> r is Err)
}

/// How adding `rule` to `old` ends in `new` with `r`: refused when a term
/// is a variable, or when a goal calls a functor neither defined nor the
/// head's; otherwise added as `rule_added` says, unless registers ran out.
pub open spec fn rule_result(old: Compiler, new: Compiler, rule: AbstractRule, r: Result<(), CompileError>) -> bool {
    let has_variable = rule.head is Variable || exists|g: int| 0 <= g < rule.goals@.len() && (#[trigger] rule.goals@[g]) is Variable;
    let undefined = exists|g: int| 0 <= g < rule.goals@.len() && goal_undefined(old, rule.head, #[trigger] rule.goals@[g]);
    &&& (has_variable <==> r matches Err(CompileError::VariableTerm))
    &&& (r matches Err(CompileError::UndefinedFunctor { name, arity }) ==> exists|g: int|
        0 <= g < rule.goals@.len() && goal_undefined(old, rule.head, #[trigger] rule.goals@[g])
            && name@ == rule.goals@[g].spec_name() && arity == rule.goals@[g].spec_arity())
    &&& (!has_variable && undefined ==> r matches Err(CompileError::UndefinedFunctor { .. }))
    &&& (!has_variable && !undefined ==> exists|
        perms: Seq<(DescriptorId, usize)>,
        head: Option<IntermediateCompileArtifact>,
        arts: Seq<IntermediateCompileArtifact>,
        procs: Seq<Seq<DescriptorId>>,
        gds: Seq<DescriptorId>,
        head_d: DescriptorId,
    | #[trigger] rule_outcome(old, new, rule, r, perms, head, arts, procs, gds, head_d))
}

/// The last step of adding a rule: with the clause linked in and its code
/// appended, the rule is added as `rule_added` says.
proof fn lemma_rule_finish(
    start: Compiler,
    new: Compiler,
    rule: AbstractRule,
    perms: Seq<(DescriptorId, usize)>,
    head: IntermediateCompileArtifact,
    arts: Seq<IntermediateCompileArtifact>,
    procs: Seq<Seq<DescriptorId>>,
    gds: Seq<DescriptorId>,
    addrs: Seq<usize>,
    head_d: DescriptorId,
    pre: Seq<Instruction>,
    code: Seq<Instruction>,
)
    requires
        permanent_plan(rule, new.descriptor_allocator.descriptors@, perms),
        compiled(
            true,
            rule.head,
            new.descriptor_allocator.descriptors@,
            perms,
            Seq::empty(),
            rule_first_temporary(rule),
            Seq::empty(),
            Some(head),
            procs[0],
        ),
        goals_compiled(rule, new.descriptor_allocator.descriptors@, perms, head, arts, procs, rule.goals@.len() as int),
        gds.len() == rule.goals@.len(),
        addrs.len() == rule.goals@.len(),
        forall|k: int|
            0 <= k < gds.len() ==> (#[trigger] gds[k]).0 < new.descriptor_allocator.descriptors@.len()
                && new.descriptor_allocator.descriptors@[gds[k].0 as int].key() == term_key(rule.goals@[k])
                && addrs[k] == clause_address(start.fact_call_map@, gds[k], start.instructions@.len() as int)
                && (call_entry_for(start.fact_call_map@, gds[k]) is Some || gds[k] == head_d),
        head_d.0 < new.descriptor_allocator.descriptors@.len(),
        new.descriptor_allocator.descriptors@[head_d.0 as int].key() == term_key(rule.head),
        call_entry_for(new.fact_call_map@, head_d) is Some,
        call_entry_for(new.fact_call_map@, head_d)->0.address == clause_address(
            start.fact_call_map@,
            head_d,
            start.instructions@.len() as int,
        ),
        forall|e: DescriptorId| e != head_d ==> call_entry_for(new.fact_call_map@, e) == call_entry_for(start.fact_call_map@, e),
        pre == seq![
            Instruction::DebugComment { functor: head_d, section: CommentSection::Head },
            Instruction::Allocate { variables: perms.len() as usize },
        ] + head.instructions@ + seq![Instruction::DebugComment { functor: head_d, section: CommentSection::Body }],
        code == pre + local_parts(arts, gds, addrs).flatten() + seq![Instruction::Deallocate],
        new.instructions@ == link_slot(start.instructions@, start.fact_call_map@, head_d) + code,
    ensures
        rule_outcome(start, new, rule, Ok(()), perms, Some(head), arts, procs, gds, head_d),
{
    let map = new.fact_call_map@;
    assert forall|k: int| 0 <= k < gds.len() implies call_entry_for(map, #[trigger] gds[k]) is Some && call_entry_for(map, gds[k])->0.address == addrs[k] by {
        if gds[k] != head_d {
            assert(call_entry_for(map, gds[k]) == call_entry_for(start.fact_call_map@, gds[k]));
        }
    }
    assert(goal_parts(arts, gds, map) =~= local_parts(arts, gds, addrs));
    assert(new.instructions@ =~= link_slot(start.instructions@, start.fact_call_map@, head_d) + seq![
        Instruction::DebugComment { functor: head_d, section: CommentSection::Head },
        Instruction::Allocate { variables: perms.len() as usize },
    ] + head.instructions@ + seq![Instruction::DebugComment { functor: head_d, section: CommentSection::Body }]
        + goal_parts(arts, gds, map).flatten() + seq![Instruction::Deallocate]);
    assert(rule_added(start, new, rule, perms, head, arts, procs, gds, head_d));
}

impl Compiler {
    /// Adds a rule: `Allocate` a frame for its permanent variables, match
    /// the head, then build each goal's arguments and `Call` it, and
    /// `Deallocate`. Every goal must call a functor defined earlier (or the
    /// rule's own).
    #[verifier::rlimit(100)]
    pub fn add_rule(&mut self, rule: &AbstractRule) -> (r: Result<(), CompileError>)
        requires
            old(self).wf(),
        ensures
            final(self).wf(),
            (rule.head is Variable || exists|g: int| 0 <= g < rule.goals@.len() && (#[trigger] rule.goals@[g]) is Variable)
                <==> r matches Err(CompileError::VariableTerm),
            r matches Err(CompileError::UndefinedFunctor { name, arity }) ==> exists|g: int|
                0 <= g < rule.goals@.len() && goal_undefined(*old(self), rule.head, #[trigger] rule.goals@[g])
                    && name@ == rule.goals@[g].spec_name() && arity == rule.goals@[g].spec_arity(),
            !(rule.head is Variable || exists|g: int| 0 <= g < rule.goals@.len() && (#[trigger] rule.goals@[g]) is Variable)
                && (exists|g: int| 0 <= g < rule.goals@.len() && goal_undefined(*old(self), rule.head, #[trigger] rule.goals@[g]))
                ==> r matches Err(CompileError::UndefinedFunctor { .. }),
            !(rule.head is Variable || exists|g: int| 0 <= g < rule.goals@.len() && (#[trigger] rule.goals@[g]) is Variable)
                && !(exists|g: int| 0 <= g < rule.goals@.len() && goal_undefined(*old(self), rule.head, #[trigger] rule.goals@[g]))
                ==> exists|
                    perms: Seq<(DescriptorId, usize)>,
                    head: Option<IntermediateCompileArtifact>,
                    arts: Seq<IntermediateCompileArtifact>,
                    procs: Seq<Seq<DescriptorId>>,
                    gds: Seq<DescriptorId>,
                    head_d: DescriptorId,
                | #[trigger] rule_outcome(*old(self), *final(self), *rule, r, perms, head, arts, procs, gds, head_d),
            r is Err ==> final(self).instructions == old(self).instructions && final(self).fact_call_map
                == old(self).fact_call_map,
            r is Ok ==> final(self).defines(term_key(rule.head)),
    {
        if let AbstractTerm::Variable(_) = rule.head {
            return Err(CompileError::VariableTerm);
        }
        let mut g: usize = 0;
        while g < rule.goals.len()
            invariant
                *self == *old(self),
                self.wf(),
                g <= rule.goals@.len(),
                forall|k: int| 0 <= k < g ==> !((#[trigger] rule.goals@[k]) is Variable),
            decreases rule.goals@.len() - g,
        {
            if let AbstractTerm::Variable(_) = rule.goals[g] {
                return Err(CompileError::VariableTerm);
            }
            g += 1;
        }
        let ghost start = *self;
        let (head_d, head_entry) = self.entry_of(&rule.head);
        let mut g: usize = 0;
        while g < rule.goals.len()
            invariant
                self.wf(),
                start.wf(),
                self.instructions == start.instructions,
                self.fact_call_map == start.fact_call_map,
                self.max_registers == start.max_registers,
                start == *old(self),
                start.descriptor_allocator.descriptors@.len() <= self.descriptor_allocator.descriptors@.len(),
                forall|i: int| 0 <= i < start.descriptor_allocator.descriptors@.len()
                    ==> self.descriptor_allocator.descriptors@[i] == #[trigger] start.descriptor_allocator.descriptors@[i],
                head_d.0 < self.descriptor_allocator.descriptors@.len(),
                self.descriptor_allocator.descriptors@[head_d.0 as int].key() == term_key(rule.head),
                g <= rule.goals@.len(),
                !(rule.head is Variable),
                forall|k: int| 0 <= k < rule.goals@.len() ==> !((#[trigger] rule.goals@[k]) is Variable),
                forall|k: int| 0 <= k < g ==> !goal_undefined(start, rule.head, #[trigger] rule.goals@[k]),
            decreases rule.goals@.len() - g,
        {
            let (gd, entry) = self.entry_of(&rule.goals[g]);
            proof {
                lemma_defines_stable(start, *self, term_key(rule.goals@[g as int]));
            }
            if entry.is_none() && gd != head_d {
                return Err(Self::undefined_functor(&rule.goals[g]));
            }
            g += 1;
        }
        let ghost head_descriptor = self.descriptor_allocator.descriptors@[head_d.0 as int];
        let ghost d_before = self.descriptor_allocator.descriptors@;
        let permanents = RegistryAllocator::prepare_permanent_variables(rule, &mut self.descriptor_allocator);
        assert(permanent_plan(*rule, self.descriptor_allocator.descriptors@, permanents@));
        let slot = self.instructions.len();
        let head_address = match head_entry {
            Some(e) => e.address,
            None => slot,
        };
        assert(head_entry == call_entry_for(start.fact_call_map@, head_d));
        assert(head_address == clause_address(start.fact_call_map@, head_d, slot as int));
        let mut code: Vec<Instruction> = Vec::new();
        code.push(Instruction::DebugComment { functor: head_d, section: CommentSection::Head });
        code.push(Instruction::Allocate { variables: permanents.len() });
        let mut processed: Vec<DescriptorId> = Vec::new();
        let first_arity = if rule.goals.len() > 0 { rule.goals[0].arity() } else { 0 };
        let head_arity = rule.head.arity();
        let first_temporary = if head_arity >= first_arity { head_arity } else { first_arity };
        assert(first_temporary == rule_first_temporary(*rule));
        let ghost d1 = self.descriptor_allocator.descriptors@;
        let head_result = self.compile_for_target::<ProgramTarget>(&rule.head, &permanents, &mut processed, Vec::new(), first_temporary);
        proof {
            lemma_permanent_plan_grow(*rule, d1, self.descriptor_allocator.descriptors@, permanents@);
        }
        let head = match head_result {
            Some(a) => a,
            None => {
                let r: Result<(), CompileError> = Err(CompileError::TooManyRegisters);
                assert(rule_overflows(*rule, self.descriptor_allocator.descriptors@, permanents@, None, Seq::empty(), seq![processed@]));
                assert(rule_outcome(start, *self, *rule, r, permanents@, None, Seq::empty(), seq![processed@], Seq::empty(), head_d));
                return r;
            },
        };
        let ghost head_g = head;
        append_instructions(&mut code, &head.instructions);
        code.push(Instruction::DebugComment { functor: head_d, section: CommentSection::Body });
        let ghost pre = code@;
        assert(pre =~= seq![
            Instruction::DebugComment { functor: head_d, section: CommentSection::Head },
            Instruction::Allocate { variables: permanents@.len() as usize },
        ] + head_g.instructions@ + seq![Instruction::DebugComment { functor: head_d, section: CommentSection::Body }]);
        let mut shared = head.register_allocator.variable_registers;
        let mut shared_next = head.register_allocator.next_temporary;
        let ghost mut arts: Seq<IntermediateCompileArtifact> = Seq::empty();
        let ghost mut procs: Seq<Seq<DescriptorId>> = seq![processed@];
        let ghost mut gds: Seq<DescriptorId> = Seq::empty();
        let ghost mut addrs: Seq<usize> = Seq::empty();
        assert(code@ =~= pre + local_parts(arts, gds, addrs).flatten());
        let mut g: usize = 0;
        while g < rule.goals.len()
            invariant
                self.wf(),
                self.instructions == start.instructions,
                self.fact_call_map == start.fact_call_map,
                slot == start.instructions@.len(),
                start == *old(self),
                start.wf(),
                start.descriptor_allocator.descriptors@.len() <= self.descriptor_allocator.descriptors@.len(),
                forall|i: int| 0 <= i < start.descriptor_allocator.descriptors@.len()
                    ==> self.descriptor_allocator.descriptors@[i] == #[trigger] start.descriptor_allocator.descriptors@[i],
                head_d.0 < self.descriptor_allocator.descriptors@.len(),
                self.descriptor_allocator.descriptors@[head_d.0 as int] == head_descriptor,
                head_descriptor.key() == term_key(rule.head),
                g <= rule.goals@.len(),
                !(rule.head is Variable),
                forall|k: int| 0 <= k < rule.goals@.len() ==> !((#[trigger] rule.goals@[k]) is Variable),
                forall|k: int| 0 <= k < rule.goals@.len() ==> !goal_undefined(start, rule.head, #[trigger] rule.goals@[k]),
                permanent_plan(*rule, self.descriptor_allocator.descriptors@, permanents@),
                compiled(
                    true,
                    rule.head,
                    self.descriptor_allocator.descriptors@,
                    permanents@,
                    Seq::empty(),
                    rule_first_temporary(*rule),
                    Seq::empty(),
                    Some(head_g),
                    procs[0],
                ),
                goals_compiled(*rule, self.descriptor_allocator.descriptors@, permanents@, head_g, arts, procs, g as int),
                processed@ == procs.last(),
                g == 0 ==> shared@ == head_g.register_allocator.variable_registers@,
                g == 0 ==> shared_next == head_g.register_allocator.next_temporary,
                gds.len() == g,
                addrs.len() == g,
                forall|k: int|
                    0 <= k < g ==> (#[trigger] gds[k]).0 < self.descriptor_allocator.descriptors@.len()
                        && self.descriptor_allocator.descriptors@[gds[k].0 as int].key() == term_key(rule.goals@[k])
                        && addrs[k] == clause_address(start.fact_call_map@, gds[k], slot as int)
                        && (call_entry_for(start.fact_call_map@, gds[k]) is Some || gds[k] == head_d),
                head_address == clause_address(start.fact_call_map@, head_d, slot as int),
                code@ == pre + local_parts(arts, gds, addrs).flatten(),
            decreases rule.goals@.len() - g,
        {
            let goal = &rule.goals[g];
            let (variables, first) = if g == 0 {
                let taken = shared;
                shared = Vec::new();
                (taken, shared_next)
            } else {
                (Vec::new(), goal.arity())
            };
            assert(variables@ == goal_variables(head_g, g as int));
            assert(first == goal_first_temporary(*rule, head_g, g as int));
            let ghost dg = self.descriptor_allocator.descriptors@;
            let ghost before_processed = processed@;
            let built_result = self.compile_for_target::<QueryTarget>(goal, &permanents, &mut processed, variables, first);
            proof {
                let d2 = self.descriptor_allocator.descriptors@;
                lemma_permanent_plan_grow(*rule, dg, d2, permanents@);
                lemma_compiled_grow(true, rule.head, dg, d2, permanents@, Seq::empty(), rule_first_temporary(*rule), Seq::empty(), Some(head_g), procs[0]);
                lemma_goals_compiled_grow(*rule, dg, d2, permanents@, head_g, arts, procs, g as int);
            }
            let built = match built_result {
                Some(a) => a,
                None => {
                    let r: Result<(), CompileError> = Err(CompileError::TooManyRegisters);
                    assert(rule_overflows(*rule, self.descriptor_allocator.descriptors@, permanents@, Some(head_g), arts, procs));
                    assert(rule_outcome(start, *self, *rule, r, permanents@, Some(head_g), arts, procs, gds, head_d));
                    return r;
                },
            };
            let ghost d3 = self.descriptor_allocator.descriptors@;
            let (gd, entry) = self.entry_of(goal);
            proof {
                let d4 = self.descriptor_allocator.descriptors@;
                lemma_permanent_plan_grow(*rule, d3, d4, permanents@);
                lemma_compiled_grow(true, rule.head, d3, d4, permanents@, Seq::empty(), rule_first_temporary(*rule), Seq::empty(), Some(head_g), procs[0]);
                lemma_goals_compiled_grow(*rule, d3, d4, permanents@, head_g, arts, procs, g as int);
                lemma_compiled_grow(false, rule.goals@[g as int], d3, d4, permanents@, goal_variables(head_g, g as int), goal_first_temporary(*rule, head_g, g as int), procs[g as int], Some(built), processed@);
                lemma_defines_stable(start, *self, term_key(rule.goals@[g as int]));
                if entry is None {
                    assert(!goal_undefined(start, rule.head, rule.goals@[g as int]));
                    assert(term_key(rule.goals@[g as int]) == term_key(rule.head));
                    assert(d4[gd.0 as int].key() == d4[head_d.0 as int].key());
                }
            }
            let address = match entry {
                Some(e) => e.address,
                None => head_address,
            };
            let ghost code_before = code@;
            code.push(Instruction::DebugComment { functor: gd, section: CommentSection::Goal });
            append_instructions(&mut code, &built.instructions);
            code.push(Instruction::Call { address, functor: gd });
            proof {
                let old_arts = arts;
                let old_gds = gds;
                let old_addrs = addrs;
                arts = arts.push(built);
                procs = procs.push(processed@);
                gds = gds.push(gd);
                addrs = addrs.push(address);
                assert(local_parts(arts, gds, addrs) =~= local_parts(old_arts, old_gds, old_addrs).push(goal_part(gd, built, address)));
                local_parts(old_arts, old_gds, old_addrs).lemma_flatten_push(goal_part(gd, built, address));
                assert(code@ =~= pre + local_parts(arts, gds, addrs).flatten());
                assert forall|k: int| 0 <= k < g + 1 implies compiled(
                    false,
                    rule.goals@[k],
                    self.descriptor_allocator.descriptors@,
                    permanents@,
                    goal_variables(head_g, k),
                    goal_first_temporary(*rule, head_g, k),
                    procs[k],
                    Some(#[trigger] arts[k]),
                    procs[k + 1],
                ) by {
                    if k < g {
                        assert(arts[k] == old_arts[k]);
                    }
                }
            }
            g += 1;
        }
        let ghost body = code@;
        code.push(Instruction::Deallocate);
        assert(code@ =~= pre + local_parts(arts, gds, addrs).flatten() + seq![Instruction::Deallocate]);
        let ghost before_open = *self;
        self.open_clause(head_d);
        let ghost linked = self.instructions@;
        append_instructions(&mut self.instructions, &code);
        proof {
            let descs = self.descriptor_allocator.descriptors@;
            let map = self.fact_call_map@;
            lemma_call_entry_none(self.fact_call_map@, head_d);
            let i = choose|i: int| 0 <= i < self.fact_call_map@.len() && #[trigger] self.fact_call_map@[i] == call_entry_for(self.fact_call_map@, head_d)->0;
            assert(self.fact_call_map@[i].functor == head_d);
            assert(descs[self.fact_call_map@[i].functor.0 as int].key() == term_key(rule.head));
            lemma_rule_finish(start, *self, *rule, permanents@, head_g, arts, procs, gds, addrs, head_d, pre, code@);
            assert(rule_outcome(start, *self, *rule, Ok(()), permanents@, Some(head_g), arts, procs, gds, head_d));
        }
        Ok(())
    }

    /// Adds a clause of either kind.
    pub fn add_program(&mut self, program: &AbstractProgram) -> (r: Result<(), CompileError>)
        requires
            old(self).wf(),
        ensures
            final(self).wf(),
            r is Err ==> final(self).instructions == old(self).instructions && final(self).fact_call_map
                == old(self).fact_call_map,
            r is Ok ==> match program {
                AbstractProgram::Fact(f) => final(self).defines(term_key(f.term)),
                AbstractProgram::Rule(rule) => final(self).defines(term_key(rule.head)),
            },
            match program {
                AbstractProgram::Fact(f) => fact_result(*old(self), *final(self), *f, r),
                AbstractProgram::Rule(rule) => rule_result(*old(self), *final(self), *rule, r),
            },
    {
        match program {
            AbstractProgram::Fact(fact) => self.add_fact(fact),
            AbstractProgram::Rule(rule) => {
                let r = self.add_rule(rule);
                assert(rule_result(*old(self), *self, *rule, r));
                r
            },
        }
    }
}

pub open spec fn distinct_variables(s: Seq<InspectionVariable>) -> bool {
    forall|i: int, j: int| 0 <= i < j < s.len() ==> (#[trigger] s[i]).variable != (#[trigger] s[j]).variable
}

pub open spec fn watch_of(r: Result<CompileArtifact, CompileError>) -> Seq<InspectionVariable> {
    match r {
        Ok(a) => a.inspection_variables@,
        Err(_) => Seq::empty(),
    }
}

/// Whether the watch list names descriptor `d`.
pub open spec fn watched(w: Seq<InspectionVariable>, d: DescriptorId) -> bool {
    exists|i: int| 0 <= i < w.len() && (#[trigger] w[i]).variable == d
}

/// The watch list built from the first `k` nodes of `order`: each variable
/// once, at its first occurrence, with the register `variables` gives it.
pub open spec fn watch_upto(
    t: TermTable,
    ids: Seq<DescriptorId>,
    variables: Seq<(DescriptorId, RegisterId)>,
    order: Seq<usize>,
    k: int,
) -> Seq<InspectionVariable>
    decreases k,
{
    if k <= 0 {
        Seq::empty()
    } else {
        let w = watch_upto(t, ids, variables, order, k - 1);
        let id = order[k - 1] as int;
        if t.nodes@[id].item.term is Variable && !watched(w, ids[id]) {
            w.push(InspectionVariable { variable: ids[id], register: or_default(assoc(variables, ids[id])) })
        } else {
            w
        }
    }
}

/// The query's variables in order of first occurrence (depth-first), each
/// with its register.
pub open spec fn query_watch(
    term: AbstractTerm,
    descs: Seq<TermDescriptor>,
    variables: Seq<(DescriptorId, RegisterId)>,
    watch: Seq<InspectionVariable>,
) -> bool {
    exists|t: TermTable, ids: Seq<DescriptorId>|
        t.wf() && *t.nodes@[0].item.term == term && #[trigger] ids_describe_nodes(t, ids, descs) && watch == watch_upto(
            t,
            ids,
            variables,
            depth_first_order(t),
            depth_first_order(t).len() as int,
        )
}

/// `new` is `old` after compiling the query `term`: its arguments compiled
/// (in query order, from temporary `arity` on) into `result`, and, when the
/// temporaries fit, the code grown by a comment, the query's code and a
/// `Call` to the first clause of its functor `d`, with `watch` the query's
/// variables in order of first occurrence.
pub open spec fn query_compiled(
    old: Compiler,
    new: Compiler,
    term: AbstractTerm,
    result: Option<IntermediateCompileArtifact>,
    after: Seq<DescriptorId>,
    d: DescriptorId,
    watch: Seq<InspectionVariable>,
) -> bool {
    &&& compiled(
        false,
        term,
        new.descriptor_allocator.descriptors@,
        Seq::empty(),
        Seq::empty(),
        term.spec_arity() as usize,
        Seq::empty(),
        result,
        after,
    )
    &&& result matches Some(a) ==> {
        &&& d.0 < new.descriptor_allocator.descriptors@.len()
        &&& new.descriptor_allocator.descriptors@[d.0 as int].key() == term_key(term)
        &&& call_entry_for(old.fact_call_map@, d) is Some
        &&& new.instructions@ == old.instructions@ + seq![
            Instruction::DebugComment { functor: d, section: CommentSection::Query },
        ] + a.instructions@ + seq![
            Instruction::Call { address: call_entry_for(old.fact_call_map@, d)->0.address, functor: d },
        ]
        &&& query_watch(term, new.descriptor_allocator.descriptors@, a.register_allocator.variable_registers@, watch)
    }
}

impl Compiler {
    /// The query's variables, each once, in order of first appearance, with
    /// the registers the query's code puts them in.
    fn watch_list(&mut self, query: &AbstractTerm, alloc: &RegistryAllocator) -> (r: Vec<InspectionVariable>)
        requires
            old(self).wf(),
        ensures
            final(self).wf(),
            final(self).instructions == old(self).instructions,
            final(self).fact_call_map == old(self).fact_call_map,
            final(self).max_registers == old(self).max_registers,
            old(self).descriptor_allocator.descriptors@.len() <= final(self).descriptor_allocator.descriptors@.len(),
            forall|i: int| 0 <= i < old(self).descriptor_allocator.descriptors@.len()
                ==> final(self).descriptor_allocator.descriptors@[i] == #[trigger] old(self).descriptor_allocator.descriptors@[i],
            distinct_variables(r@),
            forall|i: int| 0 <= i < r@.len() ==> {
                &&& (#[trigger] r@[i]).variable.0 < final(self).descriptor_allocator.descriptors@.len()
                &&& final(self).descriptor_allocator.descriptors@[r@[i].variable.0 as int].kind == DescriptorKind::Variable
                &&& r@[i].register == or_default(assoc(alloc.variable_registers@, r@[i].variable))
            },
            query_watch(*query, final(self).descriptor_allocator.descriptors@, alloc.variable_registers@, r@),
    {
        let table = TermTable::new(query);
        let ids = intern_nodes(&table, &mut self.descriptor_allocator);
        let order = table.depth_first_order();
        let mut seen: Vec<DescriptorId> = Vec::new();
        let mut watch: Vec<InspectionVariable> = Vec::new();
        let mut k: usize = 0;
        while k < order.len()
            invariant
                self.wf(),
                ids@.len() == table.nodes@.len(),
                order@ == depth_first_order(table),
                table.wf(),
                k <= order@.len(),
                seen@.len() == watch@.len(),
                forall|i: int| 0 <= i < watch@.len() ==> (#[trigger] watch@[i]).variable == seen@[i],
                distinct_variables(watch@),
                watch@ == watch_upto(table, ids@, alloc.variable_registers@, order@, k as int),
                forall|k2: int|
                    0 <= k2 < ids@.len() ==> {
                        &&& (#[trigger] ids@[k2]).0 < self.descriptor_allocator.descriptors@.len()
                        &&& table.nodes@[k2].item.term is Variable ==> self.descriptor_allocator.descriptors@[ids@[k2].0 as int].kind
                            == DescriptorKind::Variable
                    },
                forall|i: int| 0 <= i < watch@.len() ==> {
                    &&& (#[trigger] watch@[i]).variable.0 < self.descriptor_allocator.descriptors@.len()
                    &&& self.descriptor_allocator.descriptors@[watch@[i].variable.0 as int].kind == DescriptorKind::Variable
                    &&& watch@[i].register == or_default(assoc(alloc.variable_registers@, watch@[i].variable))
                },
            decreases order@.len() - k,
        {
            let id = order[k];
            proof { lemma_depth_first_order_in_range(table, k as int); }
            if let AbstractTerm::Variable(_) = table.nodes[id].item.term {
                let d = ids[id];
                let present = contains(&seen, d);
                proof {
                    if watched(watch@, d) {
                        let i = choose|i: int| 0 <= i < watch@.len() && (#[trigger] watch@[i]).variable == d;
                        assert(seen@[i] == d);
                    }
                    if present {
                        let i = choose|i: int| 0 <= i < seen@.len() && seen@[i] == d;
                        assert(watch@[i].variable == d);
                    }
                }
                if !present {
                    let register = register_or_default(alloc.lookup_variable(d));
                    proof {
                        assert forall|i: int| 0 <= i < watch@.len() implies (#[trigger] watch@[i]).variable != d by {
                            assert(seen@[i] != d);
                        }
                    }
                    seen.push(d);
                    watch.push(InspectionVariable { variable: d, register });
                }
            }
            k += 1;
        }
        proof {
            let descs = self.descriptor_allocator.descriptors@;
            assert(ids_describe_nodes(table, ids@, descs));
        }
        watch
    }

    /// Compiles a query (a term in the shape of a fact) after the program's
    /// clauses: its arguments are built with put/set instructions, then its
    /// functor is called.
    pub fn compile(&mut self, query: &AbstractProgram) -> (r: Result<CompileArtifact, CompileError>)
        requires
            old(self).wf(),
        ensures
            final(self).wf(),
            query is Rule <==> r matches Err(CompileError::RuleAsQuery),
            (query matches AbstractProgram::Fact(f) && f.term is Variable) <==> r matches Err(CompileError::VariableTerm),
            r matches Err(CompileError::UndefinedFunctor { .. }) <==> (query matches AbstractProgram::Fact(f)
                && !(f.term is Variable) && !old(self).defines(term_key(f.term))),
            r matches Err(CompileError::UndefinedFunctor { name, arity }) ==> (query matches AbstractProgram::Fact(f)
                && name@ == f.term.spec_name() && arity == f.term.spec_arity()),
            (query matches AbstractProgram::Fact(f) && !(f.term is Variable) && old(self).defines(term_key(f.term)))
                ==> exists|result: Option<IntermediateCompileArtifact>, after: Seq<DescriptorId>, d: DescriptorId|
                #[trigger] query_compiled(
                    *old(self),
                    *final(self),
                    query->Fact_0.term,
                    result,
                    after,
                    d,
                    watch_of(r),
                ) && (result is None <==> r is Err),
            r is Err ==> final(self).instructions == old(self).instructions,
            final(self).fact_call_map == old(self).fact_call_map,
            r is Ok ==> ({
                let a = r->Ok_0;
                &&& a.start_instruction_index == old(self).instructions@.len()
                &&& a.instructions@ == final(self).instructions@
                &&& a.max_registers == final(self).max_registers
                &&& final(self).instructions@.len() > old(self).instructions@.len() + 1
                &&& final(self).instructions@.subrange(0, old(self).instructions@.len() as int) == old(self).instructions@
                &&& final(self).instructions@[old(self).instructions@.len() as int] is DebugComment
                &&& final(self).instructions@.last() matches Instruction::Call { address, functor } && exists|i: int|
                    0 <= i < final(self).fact_call_map@.len() && (#[trigger] final(self).fact_call_map@[i]).functor == functor
                        && final(self).fact_call_map@[i].address == address
                        && final(self).descriptor_allocator.descriptors@[functor.0 as int].key() == term_key(
                        query->Fact_0.term)
                &&& a.max_registers >= 1
                &&& code_fits(
                    a.instructions@.subrange(old(self).instructions@.len() as int, a.instructions@.len() as int),
                    a.max_registers as int,
                )
                &&& distinct_variables(a.inspection_variables@)
                &&& forall|i: int| 0 <= i < a.inspection_variables@.len() ==> final(self).descriptor_allocator.descriptors@[
                    (#[trigger] a.inspection_variables@[i]).variable.0 as int].kind == DescriptorKind::Variable
            }),
    {
        let term = match query {
            AbstractProgram::Fact(fact) => &fact.term,
            AbstractProgram::Rule(_) => return Err(CompileError::RuleAsQuery),
        };
        if let AbstractTerm::Variable(_) = term {
            return Err(CompileError::VariableTerm);
        }
        let (d, entry) = self.entry_of(term);
        let entry = match entry {
            Some(e) => e,
            None => return Err(Self::undefined_functor(term)),
        };
        let mut processed: Vec<DescriptorId> = Vec::new();
        let no_permanents: Vec<(DescriptorId, usize)> = Vec::new();
        let ghost start = *old(self);
        assert(*term == query->Fact_0.term);
        let built = match self.compile_for_target::<QueryTarget>(term, &no_permanents, &mut processed, Vec::new(), term.arity()) {
            Some(a) => a,
            None => {
                let r: Result<CompileArtifact, CompileError> = Err(CompileError::TooManyRegisters);
                assert(query_compiled(start, *self, query->Fact_0.term, None, processed@, d, watch_of(r)));
                return r;
            },
        };
        let ghost descs1 = self.descriptor_allocator.descriptors@;
        let inspection_variables = self.watch_list(term, &built.register_allocator);
        proof {
            lemma_compiled_grow(
                false,
                *term,
                descs1,
                self.descriptor_allocator.descriptors@,
                Seq::empty(),
                Seq::empty(),
                term.spec_arity() as usize,
                Seq::empty(),
                Some(built),
                processed@,
            );
        }
        if self.max_registers == 0 {
            self.max_registers = 1;
        }
        proof {
            lemma_compiled_fits(
                false,
                *term,
                self.descriptor_allocator.descriptors@,
                Seq::empty(),
                Seq::empty(),
                term.spec_arity() as usize,
                Seq::empty(),
                built,
                processed@,
                self.max_registers as int,
            );
        }
        let ghost old_code = self.instructions@;
        let start_instruction = self.instructions.len();
        self.instructions.push(Instruction::DebugComment { functor: d, section: CommentSection::Query });
        append_instructions(&mut self.instructions, &built.instructions);
        self.instructions.push(Instruction::Call { address: entry.address, functor: d });
        proof {
            lemma_call_entry_none(self.fact_call_map@, d);
            assert(self.instructions@.subrange(0, old_code.len() as int) =~= old_code);
            let region = self.instructions@.subrange(old_code.len() as int, self.instructions@.len() as int);
            assert forall|i: int| 0 <= i < region.len() implies instruction_fits(#[trigger] region[i], self.max_registers as int) by {
                if 1 <= i < region.len() - 1 {
                    assert(region[i] == built.instructions@[i - 1]);
                }
            }
            assert(self.instructions@ =~= start.instructions@ + seq![
                Instruction::DebugComment { functor: d, section: CommentSection::Query },
            ] + built.instructions@ + seq![Instruction::Call { address: entry.address, functor: d }]);
        }
        let r: Result<CompileArtifact, CompileError> = Ok(CompileArtifact {
            start_instruction_index: start_instruction,
            instructions: copy_instructions(&self.instructions),
            max_registers: self.max_registers,
            inspection_variables,
        });
        assert(query_compiled(start, *self, query->Fact_0.term, Some(built), processed@, d, watch_of(r)));
        r
    }
}

} // verus!
