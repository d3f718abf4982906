use vstd::prelude::*;
use vstd::set_lib::{lemma_int_range, lemma_len_subset, set_int_range};
use crate::choicepoint::ChoicePointHead;
use crate::compiler::{
    allocation_of, allocate_node, allocate_upto, assoc, compiled, compiled_from, emit_child, emit_children, emit_node,
    emit_non_root, emit_upto, initial_allocation, node_register, or_default, structure_instruction, AllocationModel,
    EmitModel, IntermediateCompileArtifact,
};
use crate::descriptor::TermDescriptor;
use crate::instructions::DescriptorId;
use crate::terms::AbstractTerm;
use crate::traversal::{
    fact_order, lemma_fact_order_in_range, lemma_query_order_in_range, query_order, term_children, TermTable,
};
use crate::instructions::RegisterId;
use crate::instructions::Instruction;
use crate::interpreter::{
    bind, deref, deref_fuel, execute, read_address, push_heap, restore, step_model, try_backtrack_model, unify, unify_loop,
    unify_pair, Cell, CellAddress, ExecutionState, MachineModel, Mode, UnifyOutcome, UNIFY_WORK_LIMIT,
};

verus! {

/// The lengths a machine's vectors can have.
pub open spec fn fits(m: MachineModel) -> bool {
    &&& m.heap.len() <= usize::MAX
    &&& m.trail.len() <= usize::MAX
    &&& m.frames.len() <= usize::MAX
    &&& m.env_cells.len() <= usize::MAX
    &&& m.choice_cells.len() <= usize::MAX
}

/// One move of a driver: a step, or a request for the next solution.
pub open spec fn advances(m: MachineModel, next: MachineModel) -> bool {
    next == step_model(m).0 || next == try_backtrack_model(m).0
}

/// Choice point `n` still holds the marks `s`, and nothing above it or in
/// memory has gone below them.
pub open spec fn keeps_choice(m: MachineModel, n: int, s: ChoicePointHead) -> bool {
    &&& 0 <= n < m.choices.len()
    &&& m.choices[n].stack_address == s.stack_address
    &&& m.choices[n].trail_address == s.trail_address
    &&& m.choices[n].environment_address == s.environment_address
    &&& m.choices[n].environment_length == s.environment_length
    &&& m.choices[n].continuation_address == s.continuation_address
    &&& forall|j: int|
        n <= j < m.choices.len() ==> {
            &&& (#[trigger] m.choices[j]).stack_address >= s.stack_address
            &&& m.choices[j].trail_address >= s.trail_address
            &&& m.choices[j].environment_length >= s.environment_length
        }
    &&& m.heap.len() >= s.stack_address
    &&& m.trail.len() >= s.trail_address
    &&& m.frames.len() >= s.environment_length
}

/// What unification may change: cells and the trail (which only grows), the
/// instruction pointer and the state.
pub open spec fn unify_frame(m: MachineModel, m2: MachineModel) -> bool {
    &&& m2.choices == m.choices
    &&& m2.frames == m.frames
    &&& m2.heap.len() == m.heap.len()
    &&& m2.trail.len() >= m.trail.len()
    &&& m2.current_frame == m.current_frame
}

pub proof fn lemma_bind_frame(m: MachineModel, a: CellAddress, b: CellAddress)
    ensures
        unify_frame(m, bind(m, a, b)),
{
}

pub proof fn lemma_unify_pair_frame(m: MachineModel, x: CellAddress, y: CellAddress)
    ensures
        match unify_pair(m, x, y) {
            UnifyOutcome::Stop(m2) => unify_frame(m, m2),
            UnifyOutcome::Continue(m2, _) => unify_frame(m, m2),
        },
{
    lemma_bind_frame(m, x, y);
    match (deref(m, x, deref_fuel(m)), deref(m, y, deref_fuel(m))) {
        (Some(dx), Some(dy)) => {
            lemma_bind_frame(m, dx, dy);
        },
        _ => {},
    }
}

pub proof fn lemma_unify_loop_frame(m: MachineModel, work: Seq<(CellAddress, CellAddress)>, fuel: nat)
    ensures
        unify_frame(m, unify_loop(m, work, fuel)),
    decreases fuel,
{
    if work.len() > 0 && fuel > 0 {
        lemma_unify_pair_frame(m, work.last().0, work.last().1);
        match unify_pair(m, work.last().0, work.last().1) {
            UnifyOutcome::Stop(m2) => {},
            UnifyOutcome::Continue(m2, more) => {
                lemma_unify_loop_frame(m2, work.drop_last() + more, (fuel - 1) as nat);
            },
        }
    }
}

pub proof fn lemma_unify_frame(m: MachineModel, a: CellAddress, b: CellAddress)
    ensures
        unify_frame(m, unify(m, a, b)),
{
    lemma_unify_loop_frame(m, seq![(a, b)], UNIFY_WORK_LIMIT as nat);
}

/// The conclusion of `lemma_advance_keeps_choice`.
pub open spec fn choice_kept_or_restored(next: MachineModel, n: int, s: ChoicePointHead) -> bool {
    &&& next.choices.len() >= n
    &&& next.choices.len() > n ==> keeps_choice(next, n, s)
    &&& next.choices.len() == n ==> {
        &&& next.continuation == s.continuation_address
        &&& next.heap.len() == s.stack_address
        &&& next.trail.len() == s.trail_address
        &&& next.current_frame == s.environment_address
        &&& next.frames.len() == s.environment_length
    }
}

pub proof fn lemma_query_keeps_choice(m: MachineModel, ins: Instruction, n: int, s: ChoicePointHead)
    requires
        keeps_choice(m, n, s),
        ins is PutStructure || ins is PutVariable || ins is PutValue || ins is SetVariable || ins is SetValue
            || ins is DebugComment || ins is NoOp || ins is Proceed || ins is Call || ins is Allocate
            || ins is GetVariable || ins is UnifyVariable,
    ensures
        choice_kept_or_restored(execute(m, ins), n, s),
{
}

pub proof fn lemma_unifying_keeps_choice(m: MachineModel, ins: Instruction, n: int, s: ChoicePointHead)
    requires
        keeps_choice(m, n, s),
        ins is GetValue || ins is UnifyValue || ins is GetStructure,
    ensures
        choice_kept_or_restored(execute(m, ins), n, s),
{
    match ins {
        Instruction::GetValue { argument_register, value_register } => {
            lemma_unify_frame(m, CellAddress::Register { index: value_register }, CellAddress::Register { index: argument_register });
        },
        Instruction::UnifyValue { register } => {
            if m.mode == Mode::Read && m.next_sub_term < m.heap.len() {
                lemma_unify_frame(m, CellAddress::Register { index: register }, CellAddress::GlobalStack { index: m.next_sub_term });
            }
        },
        Instruction::GetStructure { structure, register } => {
            match deref(m, CellAddress::Register { index: register }, deref_fuel(m)) {
                Some(addr) => {
                    if m.heap.len() < usize::MAX {
                        let h = m.heap.len() as usize;
                        let m2 = push_heap(push_heap(m, Cell::StructureRef((h + 1) as usize)), Cell::Structure(structure));
                        lemma_bind_frame(m2, addr, CellAddress::GlobalStack { index: h });
                    }
                },
                None => {},
            }
        },
        _ => {},
    }
}

pub proof fn lemma_deallocate_keeps_choice(m: MachineModel, n: int, s: ChoicePointHead)
    requires
        keeps_choice(m, n, s),
    ensures
        choice_kept_or_restored(execute(m, Instruction::Deallocate), n, s),
{
    assert(m.choices[m.choices.len() - 1].environment_length >= s.environment_length);
}

pub proof fn lemma_try_keeps_choice(m: MachineModel, else_address: usize, n: int, s: ChoicePointHead)
    requires
        keeps_choice(m, n, s),
        fits(m),
    ensures
        choice_kept_or_restored(execute(m, Instruction::TryMeElse { else_address }), n, s),
{
    let next = execute(m, Instruction::TryMeElse { else_address });
    if next.choices.len() > m.choices.len() {
        assert(next.choices[n] == m.choices[n]);
        assert forall|j: int| n <= j < next.choices.len() implies {
            &&& (#[trigger] next.choices[j]).stack_address >= s.stack_address
            &&& next.choices[j].trail_address >= s.trail_address
            &&& next.choices[j].environment_length >= s.environment_length
        } by {
            if j < m.choices.len() {
                assert(next.choices[j] == m.choices[j]);
            }
        }
    }
}

#[verifier::rlimit(40)]
pub proof fn lemma_retry_keeps_choice(m: MachineModel, else_address: usize, n: int, s: ChoicePointHead)
    requires
        keeps_choice(m, n, s),
    ensures
        choice_kept_or_restored(execute(m, Instruction::RetryMeElse { else_address }), n, s),
{
    let next = execute(m, Instruction::RetryMeElse { else_address });
    let top = m.choices.last();
    assert(m.choices[m.choices.len() - 1].stack_address >= s.stack_address);
    match restore(m, top) {
        Some(m2) => {
            assert forall|j: int| n <= j < next.choices.len() implies {
                &&& (#[trigger] next.choices[j]).stack_address >= s.stack_address
                &&& next.choices[j].trail_address >= s.trail_address
                &&& next.choices[j].environment_length >= s.environment_length
            } by {
                assert(m.choices[j].stack_address >= s.stack_address);
            }
        },
        None => {},
    }
}

#[verifier::rlimit(40)]
pub proof fn lemma_trust_keeps_choice(m: MachineModel, n: int, s: ChoicePointHead)
    requires
        keeps_choice(m, n, s),
    ensures
        choice_kept_or_restored(execute(m, Instruction::TrustMe), n, s),
{
    let next = execute(m, Instruction::TrustMe);
    let top = m.choices.last();
    assert(m.choices[m.choices.len() - 1].stack_address >= s.stack_address);
    match restore(m, top) {
        Some(m2) => {
            if next.choices.len() > n {
                assert forall|j: int| n <= j < next.choices.len() implies {
                    &&& (#[trigger] next.choices[j]).stack_address >= s.stack_address
                    &&& next.choices[j].trail_address >= s.trail_address
                    &&& next.choices[j].environment_length >= s.environment_length
                } by {
                    assert(next.choices[j] == m.choices[j]);
                }
            }
        },
        None => {},
    }
}

/// One move keeps choice point `n` and its marks while the stack stays
/// above it; the move that takes the stack down to `n` puts the marks back.
pub proof fn lemma_advance_keeps_choice(m: MachineModel, next: MachineModel, n: int, s: ChoicePointHead)
    requires
        keeps_choice(m, n, s),
        fits(m),
        advances(m, next),
    ensures
        choice_kept_or_restored(next, n, s),
{
    if next == try_backtrack_model(m).0 {
        return;
    }
    if m.state != ExecutionState::Normal || m.ip >= m.instructions.len() {
        return;
    }
    let m1 = MachineModel { ip: (m.ip + 1) as usize, ..m };
    let ins = m.instructions[m.ip as int];
    assert(next == execute(m1, ins));
    match ins {
        Instruction::GetValue { .. } | Instruction::UnifyValue { .. } | Instruction::GetStructure { .. } => {
            lemma_unifying_keeps_choice(m1, ins, n, s);
        },
        Instruction::TryMeElse { else_address } => lemma_try_keeps_choice(m1, else_address, n, s),
        Instruction::RetryMeElse { else_address } => lemma_retry_keeps_choice(m1, else_address, n, s),
        Instruction::TrustMe => lemma_trust_keeps_choice(m1, n, s),
        Instruction::Deallocate => lemma_deallocate_keeps_choice(m1, n, s),
        _ => lemma_query_keeps_choice(m1, ins, n, s),
    }
}

/// A `TryMeElse` that pushes a choice point records in it the heap length,
/// the trail length and the environment of the moment.
pub proof fn lemma_try_records(m: MachineModel)
    requires
        fits(m),
        m.ip < m.instructions.len(),
        m.instructions[m.ip as int] is TryMeElse,
        step_model(m).0.choices.len() == m.choices.len() + 1,
    ensures
        ({
            let s = step_model(m).0.choices.last();
            &&& s.stack_address == m.heap.len()
            &&& s.trail_address == m.trail.len()
            &&& s.environment_address == m.current_frame
            &&& s.environment_length == m.frames.len()
            &&& s.continuation_address == m.continuation
            &&& forall|j: int| 0 <= j < m.choices.len() ==> step_model(m).0.choices[j] == #[trigger] m.choices[j]
        }),
{
}

pub proof fn lemma_run_keeps_choice(run: Seq<MachineModel>, i: int, n: int, s: ChoicePointHead)
    requires
        1 <= i <= run.len() - 1,
        keeps_choice(run[i], n, s),
        forall|k: int| 0 <= k < run.len() ==> fits(#[trigger] run[k]),
        forall|k: int| 0 <= k < run.len() - 1 ==> advances(#[trigger] run[k], run[k + 1]),
        forall|k: int| 1 <= k < run.len() - 1 ==> (#[trigger] run[k]).choices.len() > n,
    ensures
        choice_kept_or_restored(run.last(), n, s),
    decreases run.len() - i,
{
    if i < run.len() - 1 {
        lemma_advance_keeps_choice(run[i], run[i + 1], n, s);
        if i + 1 < run.len() - 1 {
            lemma_run_keeps_choice(run, i + 1, n, s);
        }
    }
}

/// A choice point pushed by `TryMeElse` is taken off the stack only by a
/// `TrustMe`, and that puts back the heap length, the trail length, the
/// environment, the continuation and the height of the choice-point stack
/// that held just
/// before the `TryMeElse` (whatever steps and requests for further solutions
/// came between).
pub proof fn lemma_trust_restores(run: Seq<MachineModel>)
    requires
        run.len() >= 2,
        forall|i: int| 0 <= i < run.len() ==> fits(#[trigger] run[i]),
        forall|i: int| 0 <= i < run.len() - 1 ==> advances(#[trigger] run[i], run[i + 1]),
        run[0].instructions[run[0].ip as int] is TryMeElse,
        run[1] == step_model(run[0]).0,
        run[1].choices.len() == run[0].choices.len() + 1,
        forall|i: int| 1 <= i < run.len() - 1 ==> (#[trigger] run[i]).choices.len() > run[0].choices.len(),
        run.last().choices.len() <= run[0].choices.len(),
    ensures
        run.last().choices.len() == run[0].choices.len(),
        run.last().heap.len() == run[0].heap.len(),
        run.last().trail.len() == run[0].trail.len(),
        run.last().current_frame == run[0].current_frame,
        run.last().frames.len() == run[0].frames.len(),
        run.last().continuation == run[0].continuation,
{
    let n = run[0].choices.len() as int;
    let m0 = run[0];
    let s = run[1].choices[n];
    if m0.state != ExecutionState::Normal || m0.ip >= m0.instructions.len() {
        assert(run[1] == m0);
    }
    lemma_try_records(m0);
    assert(run[1].choices.last() == s);
    assert(keeps_choice(run[1], n, s)) by {
        assert forall|j: int| n <= j < run[1].choices.len() implies {
            &&& (#[trigger] run[1].choices[j]).stack_address >= s.stack_address
            &&& run[1].choices[j].trail_address >= s.trail_address
            &&& run[1].choices[j].environment_length >= s.environment_length
        } by {
            assert(j == n);
        }
    }
    if run.len() == 2 {
        assert(run.last() == run[1]);
    }
    lemma_run_keeps_choice(run, 1, n, s);
}

/// One link of a reference chain: from a reference that is not a heap
/// self-reference to the heap cell it names.
pub open spec fn hop(m: MachineModel, x: CellAddress) -> Option<CellAddress> {
    match read_address(m, x) {
        Some(Cell::Reference(n)) => if x == (CellAddress::GlobalStack { index: n }) {
            None
        } else {
            Some(CellAddress::GlobalStack { index: n })
        },
        _ => None,
    }
}

/// Where the reference chain from `a` is after `k` links, if it gets there.
pub open spec fn walk(m: MachineModel, a: CellAddress, k: nat) -> Option<CellAddress>
    decreases k,
{
    if k == 0 {
        Some(a)
    } else {
        match hop(m, a) {
            Some(b) => walk(m, b, (k - 1) as nat),
            None => None,
        }
    }
}

proof fn lemma_walk_prefix(m: MachineModel, a: CellAddress, j: nat, k: nat)
    requires
        j <= k,
        walk(m, a, k) is Some,
    ensures
        walk(m, a, j) is Some,
        1 <= j ==> walk(m, a, j)->0 is GlobalStack,
        j < k ==> read_address(m, walk(m, a, j)->0) is Some,
    decreases j,
{
    if j > 0 {
        let b = hop(m, a)->0;
        lemma_walk_prefix(m, b, (j - 1) as nat, (k - 1) as nat);
    }
}

/// A dereference that gives up either met a cell outside memory or went
/// `fuel + 1` links down the chain.
proof fn lemma_deref_gives_up(m: MachineModel, a: CellAddress, fuel: nat)
    requires
        deref(m, a, fuel) is None,
    ensures
        (exists|k: nat| k <= fuel && #[trigger] walk(m, a, k) is Some && read_address(m, walk(m, a, k)->0) is None)
            || walk(m, a, fuel + 1) is Some,
    decreases fuel,
{
    match read_address(m, a) {
        None => {
            assert(walk(m, a, 0) is Some);
        },
        Some(Cell::Reference(next)) => {
            let b = CellAddress::GlobalStack { index: next };
            if fuel > 0 {
                lemma_deref_gives_up(m, b, (fuel - 1) as nat);
                if exists|k: nat| k <= fuel - 1 && #[trigger] walk(m, b, k) is Some && read_address(m, walk(m, b, k)->0) is None {
                    let k = choose|k: nat| k <= fuel - 1 && #[trigger] walk(m, b, k) is Some && read_address(m, walk(m, b, k)->0) is None;
                    assert(walk(m, a, k + 1) == walk(m, b, k));
                } else {
                    assert(walk(m, a, fuel + 1) == walk(m, b, fuel));
                }
            } else {
                assert(walk(m, a, 1) == walk(m, b, 0));
            }
        },
        Some(_) => {},
    }
}

/// Dereferencing ends within as many links as the heap has cells, on every
/// address whose reference chain stays in memory and passes no heap cell
/// twice; the machine reports any other chain as a fault.
pub proof fn lemma_deref_terminates(m: MachineModel, a: CellAddress)
    requires
        forall|k: nat| #[trigger] walk(m, a, k) is Some ==> read_address(m, walk(m, a, k)->0) is Some,
        forall|i: nat, j: nat|
            1 <= i < j && #[trigger] walk(m, a, i) is Some && #[trigger] walk(m, a, j) is Some ==> walk(m, a, i) != walk(
                m,
                a,
                j,
            ),
    ensures
        deref(m, a, deref_fuel(m)) is Some,
{
    let len = m.heap.len();
    if deref(m, a, len) is None {
        lemma_deref_gives_up(m, a, len);
        let last = len + 1;
        assert(walk(m, a, last) is Some);
        let idx = Seq::new(last, |i: int| walk(m, a, (i + 1) as nat)->0->GlobalStack_index as int);
        assert forall|i: int| 0 <= i < last implies 0 <= #[trigger] idx[i] < len by {
            lemma_walk_prefix(m, a, (i + 1) as nat, last);
            assert(read_address(m, walk(m, a, (i + 1) as nat)->0) is Some);
        }
        assert(idx.no_duplicates()) by {
            assert forall|i: int, j: int| 0 <= i < last && 0 <= j < last && i != j implies idx[i] != idx[j] by {
                lemma_walk_prefix(m, a, (i + 1) as nat, last);
                lemma_walk_prefix(m, a, (j + 1) as nat, last);
                if i < j {
                    assert(walk(m, a, (i + 1) as nat) != walk(m, a, (j + 1) as nat));
                } else {
                    assert(walk(m, a, (j + 1) as nat) != walk(m, a, (i + 1) as nat));
                }
            }
        }
        idx.unique_seq_to_set();
        lemma_int_range(0, len as int);
        assert(idx.to_set().subset_of(set_int_range(0, len as int)));
        lemma_len_subset(idx.to_set(), set_int_range(0, len as int));
        assert(false);
    }
}

/// The instructions of each shape: get/unify for program terms, put/set
/// for query terms.
pub open spec fn has_shape(program: bool, i: Instruction) -> bool {
    if program {
        i is GetStructure || i is GetVariable || i is GetValue || i is UnifyVariable || i is UnifyValue
    } else {
        i is PutStructure || i is PutVariable || i is PutValue || i is SetVariable || i is SetValue
    }
}

pub open spec fn all_shaped(program: bool, code: Seq<Instruction>) -> bool {
    forall|i: int| 0 <= i < code.len() ==> has_shape(program, #[trigger] code[i])
}

pub proof fn lemma_children_shape(
    program: bool,
    table: TermTable,
    node_ids: Seq<DescriptorId>,
    alloc: AllocationModel,
    st: EmitModel,
    kids: Seq<usize>,
    k: int,
)
    requires
        all_shaped(program, st.code),
    ensures
        all_shaped(program, emit_children(program, table, node_ids, alloc, st, kids, k).code),
    decreases k,
{
    if k > 0 {
        lemma_children_shape(program, table, node_ids, alloc, st, kids, k - 1);
    }
}

/// Program terms compile to get/unify instructions only, query terms to
/// put/set instructions only.
pub proof fn lemma_code_shape(
    program: bool,
    table: TermTable,
    node_ids: Seq<DescriptorId>,
    alloc: AllocationModel,
    st: EmitModel,
    order: Seq<usize>,
    k: int,
)
    requires
        all_shaped(program, st.code),
    ensures
        all_shaped(program, emit_upto(program, table, node_ids, alloc, st, order, k).code),
    decreases k,
{
    if k > 0 {
        lemma_code_shape(program, table, node_ids, alloc, st, order, k - 1);
        let prev = emit_upto(program, table, node_ids, alloc, st, order, k - 1);
        let id = order[k - 1] as int;
        let node = table.nodes@[id];
        if node.item.level != 0 {
            match *node.item.term {
                AbstractTerm::Structure(_, _) => {
                    let head = EmitModel {
                        code: prev.code.push(structure_instruction(program, node_ids[id], node_register(alloc, table, id))),
                        ..prev
                    };
                    lemma_children_shape(program, table, node_ids, alloc, head, node.children@, node.children@.len() as int);
                },
                _ => {},
            }
        }
    }
}

/// The code compiled for a term has the target's shape: get/unify
/// instructions for a head, put/set instructions for a goal or a query.
pub proof fn lemma_compiled_shape(
    program: bool,
    root: AbstractTerm,
    descs: Seq<TermDescriptor>,
    permanents: Seq<(DescriptorId, usize)>,
    variables: Seq<(DescriptorId, crate::instructions::RegisterId)>,
    first_temporary: usize,
    processed: Seq<DescriptorId>,
    a: IntermediateCompileArtifact,
    processed_after: Seq<DescriptorId>,
)
    requires
        compiled(program, root, descs, permanents, variables, first_temporary, processed, Some(a), processed_after),
    ensures
        all_shaped(program, a.instructions@),
{
    let (t, ids) = choose|t: TermTable, ids: Seq<DescriptorId>|
        #[trigger] compiled_from(program, root, descs, t, ids, permanents, variables, first_temporary, processed, Some(a), processed_after);
    let order = if program { fact_order(t) } else { query_order(t) };
    let alloc = allocation_of(program, t, ids, permanents, variables, first_temporary);
    let st = EmitModel { code: Seq::empty(), processed };
    lemma_code_shape(program, t, ids, alloc, st, order, order.len() as int);
}

/// An argument or temporary register numbered below `bound`; permanent
/// slots live in the environment frame and are not counted.
pub open spec fn reg_fits(r: RegisterId, bound: int) -> bool {
    match r {
        RegisterId::Argument(i) => i < bound,
        RegisterId::Temporary(i) => i < bound,
        RegisterId::Permanent(_) => true,
    }
}

/// Every register an instruction names fits below `bound`.
pub open spec fn instruction_fits(ins: Instruction, bound: int) -> bool {
    match ins {
        Instruction::PutStructure { register, .. } => reg_fits(register, bound),
        Instruction::PutVariable { argument_register, variable_register } => reg_fits(argument_register, bound)
            && reg_fits(variable_register, bound),
        Instruction::PutValue { argument_register, value_register } => reg_fits(argument_register, bound) && reg_fits(
            value_register,
            bound,
        ),
        Instruction::SetVariable { register } => reg_fits(register, bound),
        Instruction::SetValue { register } => reg_fits(register, bound),
        Instruction::GetStructure { register, .. } => reg_fits(register, bound),
        Instruction::GetVariable { argument_register, variable_register } => reg_fits(argument_register, bound)
            && reg_fits(variable_register, bound),
        Instruction::GetValue { argument_register, value_register } => reg_fits(argument_register, bound) && reg_fits(
            value_register,
            bound,
        ),
        Instruction::UnifyVariable { register } => reg_fits(register, bound),
        Instruction::UnifyValue { register } => reg_fits(register, bound),
        _ => true,
    }
}

pub open spec fn code_fits(code: Seq<Instruction>, bound: int) -> bool {
    forall|i: int| 0 <= i < code.len() ==> instruction_fits(#[trigger] code[i], bound)
}

pub open spec fn allocation_fits(a: AllocationModel, bound: int) -> bool {
    &&& forall|i: int| 0 <= i < a.nodes.len() && (#[trigger] a.nodes[i]) is Some ==> reg_fits(a.nodes[i]->0, bound)
    &&& forall|i: int| 0 <= i < a.variables.len() ==> reg_fits((#[trigger] a.variables[i]).1, bound)
}

proof fn lemma_allocation_fits_weaken(a: AllocationModel, n: int, m: int)
    requires
        allocation_fits(a, n),
        n <= m,
    ensures
        allocation_fits(a, m),
{
}

proof fn lemma_allocate_fits(
    start: AllocationModel,
    t: TermTable,
    ids: Seq<DescriptorId>,
    perms: Seq<(DescriptorId, usize)>,
    order: Seq<usize>,
    k: int,
)
    requires
        allocation_fits(start, start.next),
        start.next >= 0,
        start.nodes.len() == t.nodes@.len(),
        k <= order.len(),
        forall|i: int| 0 <= i < order.len() ==> (#[trigger] order[i]) < t.nodes@.len(),
        allocate_upto(start, t, ids, perms, order, order.len() as int).next <= usize::MAX,
    ensures
        allocation_fits(allocate_upto(start, t, ids, perms, order, k), allocate_upto(start, t, ids, perms, order, k).next),
        allocate_upto(start, t, ids, perms, order, k).next >= start.next,
        allocate_upto(start, t, ids, perms, order, k).nodes.len() == t.nodes@.len(),
    decreases k,
{
    if k > 0 {
        lemma_allocate_fits(start, t, ids, perms, order, k - 1);
        let prev = allocate_upto(start, t, ids, perms, order, k - 1);
        let next = allocate_node(prev, t, ids, perms, order[k - 1]);
        crate::compiler::lemma_allocate_monotone(start, t, ids, perms, order, k, order.len() as int);
        lemma_allocation_fits_weaken(prev, prev.next, next.next);
        assert forall|i: int| 0 <= i < next.nodes.len() && (#[trigger] next.nodes[i]) is Some implies reg_fits(
            next.nodes[i]->0,
            next.next,
        ) by {
            let id = order[k - 1] as int;
            let node = t.nodes@[id];
            if node.item.level != 0 && !(node.item.term is Variable) && node.item.level != 1 {
                assert(next.nodes == prev.nodes.update(id, Some(RegisterId::Temporary(prev.next as usize))));
                if i != id {
                    assert(next.nodes[i] == prev.nodes[i]);
                }
            } else {
                assert(next.nodes == prev.nodes);
            }
        }
        assert forall|i: int| 0 <= i < next.variables.len() implies reg_fits((#[trigger] next.variables[i]).1, next.next) by {
            if i < prev.variables.len() {
                assert(next.variables[i] == prev.variables[i]);
            }
        }
    }
}

proof fn lemma_assoc_fits(s: Seq<(DescriptorId, RegisterId)>, d: DescriptorId, bound: int)
    requires
        forall|i: int| 0 <= i < s.len() ==> reg_fits((#[trigger] s[i]).1, bound),
        bound >= 1,
    ensures
        reg_fits(or_default(assoc(s, d)), bound),
    decreases s.len(),
{
    if s.len() > 0 && s[0].0 != d {
        assert forall|i: int| 0 <= i < s.drop_first().len() implies reg_fits((#[trigger] s.drop_first()[i]).1, bound) by {
            assert(s.drop_first()[i] == s[i + 1]);
        }
        lemma_assoc_fits(s.drop_first(), d, bound);
    }
}

/// The conditions under which emitted code fits below `bound`.
pub open spec fn emit_fits_conditions(t: TermTable, alloc: AllocationModel, bound: int) -> bool {
    &&& t.wf()
    &&& bound >= 1
    &&& allocation_fits(alloc, bound)
    &&& alloc.nodes.len() == t.nodes@.len()
    &&& forall|j: int| 0 <= j < t.nodes@.len() && (#[trigger] t.nodes@[j]).item.level == 1 ==> t.nodes@[j].item.argument_index < bound
}

proof fn lemma_node_register_fits(t: TermTable, alloc: AllocationModel, bound: int, id: int)
    requires
        emit_fits_conditions(t, alloc, bound),
        0 <= id < t.nodes@.len(),
    ensures
        reg_fits(node_register(alloc, t, id), bound),
{
    if t.nodes@[id].item.level != 1 {
        if alloc.nodes[id] is None {
        }
    }
}

proof fn lemma_children_fit(
    program: bool,
    t: TermTable,
    ids: Seq<DescriptorId>,
    alloc: AllocationModel,
    st: EmitModel,
    kids: Seq<usize>,
    k: int,
    bound: int,
)
    requires
        emit_fits_conditions(t, alloc, bound),
        code_fits(st.code, bound),
        k <= kids.len(),
        forall|i: int| 0 <= i < kids.len() ==> (#[trigger] kids[i]) < t.nodes@.len(),
    ensures
        code_fits(emit_children(program, t, ids, alloc, st, kids, k).code, bound),
    decreases k,
{
    if k > 0 {
        lemma_children_fit(program, t, ids, alloc, st, kids, k - 1, bound);
        let prev = emit_children(program, t, ids, alloc, st, kids, k - 1);
        let c = kids[k - 1] as int;
        lemma_assoc_fits(alloc.variables, ids[c], bound);
        lemma_node_register_fits(t, alloc, bound, c);
        if alloc.nodes[c] is None {
        }
        let next = emit_child(program, t, ids, alloc, prev, c);
        assert forall|i: int| 0 <= i < next.code.len() implies instruction_fits(#[trigger] next.code[i], bound) by {
            if i < prev.code.len() {
                assert(next.code[i] == prev.code[i]);
            }
        }
    }
}

/// Emitted code names only registers below `bound` when the allocation and
/// the root's arguments do.
pub proof fn lemma_emit_fits(
    program: bool,
    t: TermTable,
    ids: Seq<DescriptorId>,
    alloc: AllocationModel,
    st: EmitModel,
    order: Seq<usize>,
    k: int,
    bound: int,
)
    requires
        emit_fits_conditions(t, alloc, bound),
        code_fits(st.code, bound),
        k <= order.len(),
        forall|i: int| 0 <= i < order.len() ==> (#[trigger] order[i]) < t.nodes@.len(),
    ensures
        code_fits(emit_upto(program, t, ids, alloc, st, order, k).code, bound),
    decreases k,
{
    if k > 0 {
        lemma_emit_fits(program, t, ids, alloc, st, order, k - 1, bound);
        let prev = emit_upto(program, t, ids, alloc, st, order, k - 1);
        let id = order[k - 1] as int;
        let node = t.nodes@[id];
        if node.item.level != 0 {
            lemma_assoc_fits(alloc.variables, ids[id], bound);
            lemma_node_register_fits(t, alloc, bound, id);
            let next = emit_non_root(program, t, ids, alloc, prev, id);
            match *node.item.term {
                AbstractTerm::Structure(_, _) => {
                    let head = EmitModel {
                        code: prev.code.push(structure_instruction(program, ids[id], node_register(alloc, t, id))),
                        ..prev
                    };
                    assert forall|i: int| 0 <= i < head.code.len() implies instruction_fits(#[trigger] head.code[i], bound) by {
                        if i < prev.code.len() {
                            assert(head.code[i] == prev.code[i]);
                        }
                    }
                    assert forall|i: int| 0 <= i < node.children@.len() implies (#[trigger] node.children@[i]) < t.nodes@.len() by {
                        let c = t.nodes@[id].children@[i];
                    }
                    lemma_children_fit(program, t, ids, alloc, head, node.children@, node.children@.len() as int, bound);
                },
                _ => {
                    assert forall|i: int| 0 <= i < next.code.len() implies instruction_fits(#[trigger] next.code[i], bound) by {
                        if i < prev.code.len() {
                            assert(next.code[i] == prev.code[i]);
                        }
                    }
                },
            }
        }
    }
}

/// The root's arguments are the nodes of depth one.
pub proof fn lemma_level_one_args(t: TermTable)
    requires
        t.wf(),
    ensures
        forall|j: int| 0 <= j < t.nodes@.len() && (#[trigger] t.nodes@[j]).item.level == 1
            ==> t.nodes@[j].item.argument_index < term_children(*t.nodes@[0].item.term).len(),
{
    assert forall|j: int| 0 <= j < t.nodes@.len() && (#[trigger] t.nodes@[j]).item.level == 1
        implies t.nodes@[j].item.argument_index < term_children(*t.nodes@[0].item.term).len() by {
        let p = t.nodes@[j].parent as int;
        let k = t.nodes@[j].item.argument_index as int;
        assert(j > 0);
        assert(t.nodes@[p].children@[k] == j);
        let c = t.nodes@[p].children@[k];
        assert(t.nodes@[j].item.level == t.nodes@[p].item.level + 1);
        if p > 0 {
            let pp = t.nodes@[p].parent as int;
            let kk = t.nodes@[p].item.argument_index as int;
            assert(t.nodes@[pp].children@[kk] == p);
            let c2 = t.nodes@[pp].children@[kk];
            assert(t.nodes@[p].item.level == t.nodes@[pp].item.level + 1);
        }
        assert(p == 0);
    }
}

/// Code compiled from temporary `first` on, with a first temporary above
/// the root's arguments and variables whose registers lie below it, names
/// only registers below any bound that covers the allocation.
pub proof fn lemma_compiled_fits(
    program: bool,
    root: AbstractTerm,
    descs: Seq<TermDescriptor>,
    permanents: Seq<(DescriptorId, usize)>,
    variables: Seq<(DescriptorId, RegisterId)>,
    first_temporary: usize,
    processed: Seq<DescriptorId>,
    a: IntermediateCompileArtifact,
    processed_after: Seq<DescriptorId>,
    bound: int,
)
    requires
        compiled(program, root, descs, permanents, variables, first_temporary, processed, Some(a), processed_after),
        forall|i: int| 0 <= i < variables.len() ==> reg_fits((#[trigger] variables[i]).1, first_temporary as int),
        term_children(root).len() <= first_temporary,
        a.register_allocator.next_temporary <= bound,
        bound >= 1,
    ensures
        code_fits(a.instructions@, bound),
{
    let (t, ids) = choose|t: TermTable, ids: Seq<DescriptorId>|
        #[trigger] compiled_from(program, root, descs, t, ids, permanents, variables, first_temporary, processed, Some(a), processed_after);
    let order = if program { fact_order(t) } else { query_order(t) };
    let start = initial_allocation(t.nodes@.len(), variables, first_temporary);
    let alloc = allocation_of(program, t, ids, permanents, variables, first_temporary);
    assert forall|i: int| 0 <= i < order.len() implies (#[trigger] order[i]) < t.nodes@.len() by {
        if program {
            lemma_fact_order_in_range(t, i);
        } else {
            lemma_query_order_in_range(t, i);
        }
    }
    lemma_allocate_fits(start, t, ids, permanents, order, order.len() as int);
    lemma_allocation_fits_weaken(alloc, alloc.next, bound);
    lemma_level_one_args(t);
    crate::compiler::lemma_allocate_monotone(start, t, ids, permanents, order, 0, order.len() as int);
    lemma_emit_fits(program, t, ids, alloc, EmitModel { code: Seq::empty(), processed }, order, order.len() as int, bound);
}

} // verus!
