use vstd::prelude::*;
use crate::choicepoint::{ChoicePointHead, ChoicePointStack};
use crate::descriptor::TermDescriptor;
use crate::environment::{truncated, EnvironmentHead, EnvironmentStack};
use crate::instructions::{DescriptorId, Instruction, RegisterId};

verus! {

/// Bound on the pairs one unification may examine: the largest `u64`, so
/// that no unification of terms that fit in memory reaches it. It is there
/// so that every unification provably ends; terms built without an occurs
/// check can be cyclic, and on them unification would otherwise not end.
pub const UNIFY_WORK_LIMIT: u64 = 18446744073709551615;

#[derive(Debug, Clone, Copy, PartialEq, Eq, Structural)]
pub enum Mode {
    Read,
    Write,
}

/// `Failure` is the ordinary "no (more) solutions" outcome; `Fault` marks a
/// machine that met an impossible state (an address out of range, a
/// structure pointer that does not lead to a functor, an unset register).
#[derive(Debug, Clone, Copy, PartialEq, Eq, Structural)]
pub enum ExecutionState {
    Normal,
    Failure,
    Fault,
}

#[derive(Debug, Clone, Copy, PartialEq, Eq, Structural)]
pub enum CellAddress {
    Register { index: RegisterId },
    GlobalStack { index: usize },
}

impl CellAddress {
    pub fn is_register(&self) -> (r: bool)
        ensures
            r == (self is Register),
    {
        match self {
            CellAddress::Register { .. } => true,
            CellAddress::GlobalStack { .. } => false,
        }
    }

    pub fn is_global_stack(&self) -> (r: bool)
        ensures
            r == (self is GlobalStack),
    {
        match self {
            CellAddress::Register { .. } => false,
            CellAddress::GlobalStack { .. } => true,
        }
    }

    pub open spec fn spec_index_num(&self) -> usize {
        match self {
            CellAddress::Register { index } => index.spec_index(),
            CellAddress::GlobalStack { index } => *index,
        }
    }

    pub fn index_num(&self) -> (r: usize)
        ensures
            r == self.spec_index_num(),
    {
        match self {
            CellAddress::Register { index } => index.index_num(),
            CellAddress::GlobalStack { index } => *index,
        }
    }
}

/// A memory cell: `StructureRef(a)` points at the functor cell `a`,
/// `Structure(d)` is a functor cell whose arguments follow it, `Reference(a)`
/// points at heap cell `a` (at its own address: an unbound variable), and
/// `Undefined` is the content of a register never written.
#[derive(Debug, Clone, Copy, PartialEq, Eq, Structural)]
pub enum Cell {
    StructureRef(usize),
    Structure(DescriptorId),
    Reference(usize),
    Undefined,
}

impl Cell {
    /// The heap address a reference or structure pointer leads to.
    pub fn heap_address(&self) -> (r: Option<CellAddress>)
        ensures
            r == heap_address_of(*self),
    {
        match self {
            Cell::StructureRef(index) => Some(CellAddress::GlobalStack { index: *index }),
            Cell::Reference(index) => Some(CellAddress::GlobalStack { index: *index }),
            _ => None,
        }
    }
}

pub open spec fn heap_address_of(c: Cell) -> Option<CellAddress> {
    match c {
        Cell::StructureRef(index) => Some(CellAddress::GlobalStack { index }),
        Cell::Reference(index) => Some(CellAddress::GlobalStack { index }),
        _ => None,
    }
}

/// A query variable to report: its descriptor, and where its value lives
/// (a register until the first `Call`, then the heap cell it referred to).
#[derive(Debug, Clone, Copy, PartialEq, Eq, Structural)]
pub struct WatchCell {
    pub address: CellAddress,
    pub descriptor_id: DescriptorId,
}

/// The whole machine as a mathematical value.
pub struct MachineModel {
    pub heap: Seq<Cell>,
    pub registers: Seq<Cell>,
    pub trail: Seq<CellAddress>,
    pub instructions: Seq<Instruction>,
    pub descriptors: Seq<TermDescriptor>,
    pub ip: usize,
    pub mode: Mode,
    pub next_sub_term: usize,
    pub state: ExecutionState,
    pub frames: Seq<EnvironmentHead>,
    pub env_cells: Seq<Cell>,
    pub current_frame: usize,
    pub choices: Seq<ChoicePointHead>,
    pub choice_cells: Seq<Cell>,
    pub continuation: usize,
    pub current_functor: DescriptorId,
    pub watch: Seq<WatchCell>,
    pub watch_set: bool,
}

// ---------------------------------------------------------------------------
// Memory

/// Index in the environment cell area of permanent variable `i` of the
/// active frame.
pub open spec fn frame_slot(m: MachineModel, i: usize) -> Option<int> {
    if 0 < m.current_frame <= m.frames.len() {
        let f = m.frames[m.current_frame - 1];
        if i < f.num_variables && f.variables_address + i < m.env_cells.len() {
            Some(f.variables_address + i)
        } else {
            None
        }
    } else {
        None
    }
}

pub open spec fn read_address(m: MachineModel, a: CellAddress) -> Option<Cell> {
    match a {
        CellAddress::GlobalStack { index } => if index < m.heap.len() {
            Some(m.heap[index as int])
        } else {
            None
        },
        CellAddress::Register { index } => match index {
            RegisterId::Permanent(i) => match frame_slot(m, i) {
                Some(k) => Some(m.env_cells[k]),
                None => None,
            },
            _ => if index.spec_index() < m.registers.len() {
                Some(m.registers[index.spec_index() as int])
            } else {
                None
            },
        },
    }
}

pub open spec fn read_register(m: MachineModel, r: RegisterId) -> Option<Cell> {
    read_address(m, CellAddress::Register { index: r })
}

/// `m` with the cell at `a` replaced; unchanged when `a` is not an address.
pub open spec fn write_address(m: MachineModel, a: CellAddress, c: Cell) -> MachineModel {
    match a {
        CellAddress::GlobalStack { index } => if index < m.heap.len() {
            MachineModel { heap: m.heap.update(index as int, c), ..m }
        } else {
            m
        },
        CellAddress::Register { index } => match index {
            RegisterId::Permanent(i) => match frame_slot(m, i) {
                Some(k) => MachineModel { env_cells: m.env_cells.update(k, c), ..m },
                None => m,
            },
            _ => if index.spec_index() < m.registers.len() {
                MachineModel { registers: m.registers.update(index.spec_index() as int, c), ..m }
            } else {
                m
            },
        },
    }
}

pub open spec fn write_register(m: MachineModel, r: RegisterId, c: Cell) -> MachineModel {
    write_address(m, CellAddress::Register { index: r }, c)
}

pub open spec fn push_heap(m: MachineModel, c: Cell) -> MachineModel {
    MachineModel { heap: m.heap.push(c), ..m }
}

pub open spec fn arity_of(m: MachineModel, d: DescriptorId) -> Option<usize> {
    if d.0 < m.descriptors.len() {
        Some(m.descriptors[d.0 as int].spec_arity())
    } else {
        None
    }
}

pub open spec fn fault(m: MachineModel) -> MachineModel {
    MachineModel { state: ExecutionState::Fault, ..m }
}

// ---------------------------------------------------------------------------
// Dereference, binding, unification

/// Steps a dereference may take: a chain of distinct heap cells is never
/// longer than the heap.
pub open spec fn deref_fuel(m: MachineModel) -> nat {
    m.heap.len()
}

/// Follows references from `a`: a register holding a reference always leads
/// to the heap; a heap cell referring to itself ends the chain, as does any
/// cell that is not a reference. `None` when the chain leaves memory or is
/// longer than `fuel`.
pub open spec fn deref(m: MachineModel, a: CellAddress, fuel: nat) -> Option<CellAddress>
    decreases fuel,
{
    match read_address(m, a) {
        None => None,
        Some(Cell::Reference(next)) => if a == (CellAddress::GlobalStack { index: next }) {
            Some(a)
        } else if fuel == 0 {
            None
        } else {
            deref(m, CellAddress::GlobalStack { index: next }, (fuel - 1) as nat)
        },
        Some(_) => Some(a),
    }
}

/// Records a heap address in the trail when it lies below the heap mark of
/// the topmost choice point.
pub open spec fn try_trail(m: MachineModel, target: CellAddress) -> MachineModel {
    if m.choices.len() > 0 && target is GlobalStack && target->GlobalStack_index < m.choices.last().stack_address {
        MachineModel { trail: m.trail.push(target), ..m }
    } else {
        m
    }
}

pub open spec fn cell_or_undefined(c: Option<Cell>) -> Cell {
    match c {
        Some(c) => c,
        None => Cell::Undefined,
    }
}

/// Which cell a binding of the terminal addresses `a` and `b` writes, and
/// what: a heap cell wins over a register; of two unbound heap cells the
/// newer one is pointed at the older one; otherwise the unbound one is
/// pointed at the other.
pub open spec fn bind_target(m: MachineModel, a: CellAddress, b: CellAddress) -> (CellAddress, Cell) {
    let ca = cell_or_undefined(read_address(m, a));
    let cb = cell_or_undefined(read_address(m, b));
    match (a, b) {
        (CellAddress::Register { .. }, _) => (b, ca),
        (_, CellAddress::Register { .. }) => (a, cb),
        (CellAddress::GlobalStack { index: ia }, CellAddress::GlobalStack { index: ib }) => {
            if ca is Reference && cb is Reference {
                if ia > ib {
                    (a, Cell::Reference(ib))
                } else {
                    (b, Cell::Reference(ia))
                }
            } else if ca is Reference {
                (a, Cell::Reference(ib))
            } else {
                (b, Cell::Reference(ia))
            }
        },
    }
}

pub open spec fn bind(m: MachineModel, a: CellAddress, b: CellAddress) -> MachineModel {
    let (target, value) = bind_target(m, a, b);
    write_address(try_trail(m, target), target, value)
}

/// Resumes at the alternative of the topmost choice point, or fails when
/// there is none.
pub open spec fn backtrack(m: MachineModel) -> MachineModel {
    if m.choices.len() == 0 {
        MachineModel { state: ExecutionState::Failure, ..m }
    } else {
        MachineModel { ip: m.choices.last().next_instruction_address, ..m }
    }
}

/// The argument cells of two structures whose functor cells are `ax`, `ay`.
pub open spec fn argument_pairs(ax: usize, ay: usize, n: usize) -> Seq<(CellAddress, CellAddress)> {
    Seq::new(
        n as nat,
        |i: int|
            (
                CellAddress::GlobalStack { index: (ax + 1 + i) as usize },
                CellAddress::GlobalStack { index: (ay + 1 + i) as usize },
            ),
    )
}

pub enum UnifyOutcome {
    /// Unification of this pair is settled; more pairs may follow.
    Continue(MachineModel, Seq<(CellAddress, CellAddress)>),
    /// The unification has failed (the machine backtracked) or faulted.
    Stop(MachineModel),
}

/// One step of unification on the pair `(x, y)`.
pub open spec fn unify_pair(m: MachineModel, x: CellAddress, y: CellAddress) -> UnifyOutcome {
    match (deref(m, x, deref_fuel(m)), deref(m, y, deref_fuel(m))) {
        (Some(dx), Some(dy)) => if dx == dy {
            UnifyOutcome::Continue(m, Seq::empty())
        } else {
            match (read_address(m, dx), read_address(m, dy)) {
                (Some(cx), Some(cy)) => if cx is Undefined || cy is Undefined {
                    UnifyOutcome::Stop(backtrack(m))
                } else if cx is Reference || cy is Reference {
                    UnifyOutcome::Continue(bind(m, dx, dy), Seq::empty())
                } else {
                    match (cx, cy) {
                        (Cell::StructureRef(ax), Cell::StructureRef(ay)) => {
                            match (
                                read_address(m, CellAddress::GlobalStack { index: ax }),
                                read_address(m, CellAddress::GlobalStack { index: ay }),
                            ) {
                                (Some(Cell::Structure(fx)), Some(Cell::Structure(fy))) => if fx != fy {
                                    UnifyOutcome::Stop(backtrack(m))
                                } else {
                                    match arity_of(m, fx) {
                                        Some(n) => if n < m.heap.len() - ax && n < m.heap.len() - ay {
                                            UnifyOutcome::Continue(m, argument_pairs(ax, ay, n))
                                        } else {
                                            UnifyOutcome::Stop(fault(m))
                                        },
                                        None => UnifyOutcome::Stop(fault(m)),
                                    }
                                },
                                _ => UnifyOutcome::Stop(fault(m)),
                            }
                        },
                        _ => UnifyOutcome::Stop(backtrack(m)),
                    }
                },
                _ => UnifyOutcome::Stop(fault(m)),
            }
        },
        _ => UnifyOutcome::Stop(fault(m)),
    }
}

/// Unification driven by a stack of pairs, the last pair first.
pub open spec fn unify_loop(m: MachineModel, work: Seq<(CellAddress, CellAddress)>, fuel: nat) -> MachineModel
    decreases fuel,
{
    if work.len() == 0 {
        m
    } else if fuel == 0 {
        fault(m)
    } else {
        match unify_pair(m, work.last().0, work.last().1) {
            UnifyOutcome::Stop(m2) => m2,
            UnifyOutcome::Continue(m2, more) => unify_loop(m2, work.drop_last() + more, (fuel - 1) as nat),
        }
    }
}

pub open spec fn unify(m: MachineModel, a: CellAddress, b: CellAddress) -> MachineModel {
    unify_loop(m, seq![(a, b)], UNIFY_WORK_LIMIT as nat)
}

// ---------------------------------------------------------------------------
// Choice points and the effect of each instruction

/// `heap` with every cell named in `trail[from..]` reset to an unbound
/// variable.
pub open spec fn unwound(heap: Seq<Cell>, trail: Seq<CellAddress>, from: usize) -> Seq<Cell> {
    Seq::new(
        heap.len(),
        |j: int|
            if exists|k: int| from <= k < trail.len() && trail[k] == (CellAddress::GlobalStack { index: j as usize }) {
                Cell::Reference(j as usize)
            } else {
                heap[j]
            },
    )
}

/// The state saved by choice point `cp`, put back: argument registers,
/// environment, continuation, bindings made since (undone through the trail),
/// and the heap and trail lengths. `None` when the saved arguments are not
/// where the header says.
pub open spec fn restore(m: MachineModel, cp: ChoicePointHead) -> Option<MachineModel> {
    if cp.num_arguments <= m.registers.len() && cp.arguments_address <= m.choice_cells.len()
        && cp.num_arguments <= m.choice_cells.len() - cp.arguments_address {
        Some(
            MachineModel {
                registers: Seq::new(
                    m.registers.len(),
                    |j: int|
                        if j < cp.num_arguments {
                            m.choice_cells[cp.arguments_address + j]
                        } else {
                            m.registers[j]
                        },
                ),
                current_frame: cp.environment_address,
                frames: truncated(m.frames, cp.environment_length),
                env_cells: truncated(m.env_cells, cp.environment_cells),
                continuation: cp.continuation_address,
                heap: truncated(unwound(m.heap, m.trail, cp.trail_address), cp.stack_address),
                trail: truncated(m.trail, cp.trail_address),
                ..m
            },
        )
    } else {
        None
    }
}

/// Where a watched variable is found once the query has built its arguments.
pub open spec fn snapshot(m: MachineModel, w: WatchCell) -> WatchCell {
    match read_address(m, w.address) {
        Some(Cell::Reference(h)) => WatchCell { address: CellAddress::GlobalStack { index: h }, ..w },
        Some(Cell::StructureRef(h)) => WatchCell { address: CellAddress::GlobalStack { index: h }, ..w },
        _ => w,
    }
}

/// The effect of one instruction on `m`, whose instruction pointer has
/// already moved past it.
pub open spec fn execute(m: MachineModel, ins: Instruction) -> MachineModel {
    match ins {
        // The functor cell is appended and the register points at it; no
        // separate pointer cell goes on the heap.
        Instruction::PutStructure { structure, register } => if read_register(m, register) is None {
            fault(m)
        } else {
            write_register(push_heap(m, Cell::Structure(structure)), register, Cell::StructureRef(m.heap.len() as usize))
        },
        Instruction::PutVariable { argument_register, variable_register } => if read_register(m, argument_register) is None
            || read_register(m, variable_register) is None {
            fault(m)
        } else {
            let c = Cell::Reference(m.heap.len() as usize);
            write_register(write_register(push_heap(m, c), argument_register, c), variable_register, c)
        },
        Instruction::PutValue { argument_register, value_register } => match read_register(m, value_register) {
            Some(c) => if read_register(m, argument_register) is None {
                fault(m)
            } else {
                write_register(m, argument_register, c)
            },
            None => fault(m),
        },
        Instruction::SetVariable { register } => if read_register(m, register) is None {
            fault(m)
        } else {
            let c = Cell::Reference(m.heap.len() as usize);
            write_register(push_heap(m, c), register, c)
        },
        Instruction::SetValue { register } => match read_register(m, register) {
            Some(c) => push_heap(m, c),
            None => fault(m),
        },
        Instruction::DebugComment { .. } => m,
        Instruction::NoOp => m,
        Instruction::GetStructure { structure, register } => match deref(
            m,
            CellAddress::Register { index: register },
            deref_fuel(m),
        ) {
            Some(addr) => match read_address(m, addr) {
                Some(Cell::Reference(_)) => if m.heap.len() >= usize::MAX {
                    fault(m)
                } else {
                    let h = m.heap.len() as usize;
                    let m1 = push_heap(push_heap(m, Cell::StructureRef((h + 1) as usize)), Cell::Structure(structure));
                    MachineModel { mode: Mode::Write, ..bind(m1, addr, CellAddress::GlobalStack { index: h }) }
                },
                Some(Cell::StructureRef(a)) => match read_address(m, CellAddress::GlobalStack { index: a }) {
                    Some(Cell::Structure(found)) => if found == structure {
                        MachineModel { mode: Mode::Read, next_sub_term: (a + 1) as usize, ..m }
                    } else {
                        backtrack(m)
                    },
                    _ => fault(m),
                },
                _ => fault(m),
            },
            None => fault(m),
        },
        Instruction::GetVariable { argument_register, variable_register } => match read_register(m, argument_register) {
            Some(c) => if read_register(m, variable_register) is None {
                fault(m)
            } else {
                write_register(m, variable_register, c)
            },
            None => fault(m),
        },
        Instruction::GetValue { argument_register, value_register } => unify(
            m,
            CellAddress::Register { index: value_register },
            CellAddress::Register { index: argument_register },
        ),
        Instruction::UnifyVariable { register } => if read_register(m, register) is None {
            fault(m)
        } else {
            match m.mode {
                Mode::Read => if m.next_sub_term < m.heap.len() {
                    MachineModel {
                        next_sub_term: (m.next_sub_term + 1) as usize,
                        ..write_register(m, register, m.heap[m.next_sub_term as int])
                    }
                } else {
                    fault(m)
                },
                Mode::Write => {
                    let c = Cell::Reference(m.heap.len() as usize);
                    write_register(push_heap(m, c), register, c)
                },
            }
        },
        Instruction::UnifyValue { register } => match m.mode {
            Mode::Read => if m.next_sub_term < m.heap.len() {
                MachineModel {
                    next_sub_term: (m.next_sub_term + 1) as usize,
                    ..unify(m, CellAddress::Register { index: register }, CellAddress::GlobalStack { index: m.next_sub_term })
                }
            } else {
                fault(m)
            },
            Mode::Write => match read_register(m, register) {
                Some(c) => push_heap(m, c),
                None => fault(m),
            },
        },
        Instruction::Proceed => MachineModel { ip: m.continuation, ..m },
        Instruction::Call { address, functor } => MachineModel {
            continuation: m.ip,
            ip: address,
            current_functor: functor,
            watch: if m.watch_set { m.watch } else { m.watch.map_values(|w: WatchCell| snapshot(m, w)) },
            watch_set: true,
            ..m
        },
        Instruction::Allocate { variables } => if m.frames.len() >= usize::MAX || variables > usize::MAX
            - m.env_cells.len() {
            fault(m)
        } else {
            MachineModel {
                frames: m.frames.push(
                    EnvironmentHead {
                        num_variables: variables,
                        continuation_address: m.continuation,
                        previous_environment_address: m.current_frame,
                        variables_address: m.env_cells.len() as usize,
                    },
                ),
                env_cells: m.env_cells + Seq::new(variables as nat, |i: int| Cell::Undefined),
                current_frame: (m.frames.len() + 1) as usize,
                ..m
            }
        },
        Instruction::Deallocate => if 0 < m.current_frame <= m.frames.len() {
            let f = m.frames[m.current_frame - 1];
            let m1 = MachineModel { ip: f.continuation_address, current_frame: f.previous_environment_address, ..m };
            if m.current_frame == m.frames.len() && (m.choices.len() == 0 || m.current_frame - 1
                >= m.choices.last().environment_length) {
                MachineModel {
                    frames: m.frames.drop_last(),
                    env_cells: truncated(m.env_cells, f.variables_address),
                    ..m1
                }
            } else {
                m1
            }
        } else {
            fault(m)
        },
        Instruction::TryMeElse { else_address } => match arity_of(m, m.current_functor) {
            Some(n) => if n > m.registers.len() {
                fault(m)
            } else {
                MachineModel {
                    choices: m.choices.push(
                        ChoicePointHead {
                            num_arguments: n,
                            arguments_address: m.choice_cells.len() as usize,
                            continuation_address: m.continuation,
                            environment_address: m.current_frame,
                            environment_length: m.frames.len() as usize,
                            environment_cells: m.env_cells.len() as usize,
                            next_instruction_address: else_address,
                            trail_address: m.trail.len() as usize,
                            stack_address: m.heap.len() as usize,
                        },
                    ),
                    choice_cells: m.choice_cells + m.registers.subrange(0, n as int),
                    ..m
                }
            },
            None => fault(m),
        },
        Instruction::RetryMeElse { else_address } => if m.choices.len() == 0 {
            fault(m)
        } else {
            match restore(m, m.choices.last()) {
                Some(m1) => MachineModel {
                    choices: m.choices.update(
                        m.choices.len() - 1,
                        ChoicePointHead { next_instruction_address: else_address, ..m.choices.last() },
                    ),
                    ..m1
                },
                None => fault(m),
            }
        },
        Instruction::TrustMe => if m.choices.len() == 0 {
            fault(m)
        } else {
            match restore(m, m.choices.last()) {
                Some(m1) => MachineModel {
                    choices: m.choices.drop_last(),
                    choice_cells: truncated(m.choice_cells, m.choices.last().arguments_address),
                    ..m1
                },
                None => fault(m),
            }
        },
    }
}

/// One step of the machine: nothing happens once it has stopped (a state
/// other than `Normal`) or run past its last instruction; otherwise the next
/// instruction is executed. The flag says whether one was.
pub open spec fn step_model(m: MachineModel) -> (MachineModel, bool) {
    if m.state != ExecutionState::Normal || m.ip >= m.instructions.len() {
        (m, false)
    } else {
        (execute(MachineModel { ip: (m.ip + 1) as usize, ..m }, m.instructions[m.ip as int]), true)
    }
}

/// A request for the next solution: resumes at the topmost choice point when
/// there is one and the machine has not stopped.
pub open spec fn try_backtrack_model(m: MachineModel) -> (MachineModel, bool) {
    if m.choices.len() > 0 && m.state == ExecutionState::Normal {
        (backtrack(m), true)
    } else {
        (m, false)
    }
}

// ---------------------------------------------------------------------------
// The machine

/// A machine about to run `instructions` from `start`: `registers` unset
/// registers, an empty heap, trail and stacks, and the watched variables in
/// their registers.
pub open spec fn initial_model(
    instructions: Seq<Instruction>,
    start: usize,
    registers: usize,
    descriptors: Seq<TermDescriptor>,
    watch: Seq<InspectionVariable>,
) -> MachineModel {
    MachineModel {
        heap: Seq::empty(),
        registers: Seq::new(registers as nat, |i: int| Cell::Undefined),
        trail: Seq::empty(),
        instructions,
        descriptors,
        ip: start,
        mode: Mode::Write,
        next_sub_term: 0,
        state: ExecutionState::Normal,
        frames: Seq::empty(),
        env_cells: Seq::empty(),
        current_frame: 0,
        choices: Seq::empty(),
        choice_cells: Seq::empty(),
        continuation: start,
        current_functor: DescriptorId(0),
        watch: Seq::new(
            watch.len(),
            |i: int| WatchCell { address: CellAddress::Register { index: watch[i].register }, descriptor_id: watch[i].variable },
        ),
        watch_set: false,
    }
}

/// A compiled program bound to a register file, a heap and the stacks, ready
/// to be stepped.
#[derive(Debug)]
pub struct Interpreter {
    pub global_stack: Vec<Cell>,
    pub registers: Vec<Cell>,
    pub trail: Vec<CellAddress>,
    pub instructions: Vec<Instruction>,
    pub instruction_index: usize,
    pub mode: Mode,
    pub next_sub_term_address: usize,
    pub execution_state: ExecutionState,
    pub environment_stack: EnvironmentStack,
    pub choice_point_stack: ChoicePointStack,
    pub proceed_return_address: usize,
    pub current_functor: DescriptorId,
    pub inspection_watch: Vec<WatchCell>,
    pub inspection_set: bool,
    pub descriptors: Vec<TermDescriptor>,
}

/// A variable of the query, and the register that holds it.
#[derive(Debug, Clone, Copy, PartialEq, Eq, Structural)]
pub struct InspectionVariable {
    pub variable: DescriptorId,
    pub register: RegisterId,
}

impl View for Interpreter {
    type V = MachineModel;

    open spec fn view(&self) -> MachineModel {
        MachineModel {
            heap: self.global_stack@,
            registers: self.registers@,
            trail: self.trail@,
            instructions: self.instructions@,
            descriptors: self.descriptors@,
            ip: self.instruction_index,
            mode: self.mode,
            next_sub_term: self.next_sub_term_address,
            state: self.execution_state,
            frames: self.environment_stack.frames@,
            env_cells: self.environment_stack.cells@,
            current_frame: self.environment_stack.current,
            choices: self.choice_point_stack.frames@,
            choice_cells: self.choice_point_stack.cells@,
            continuation: self.proceed_return_address,
            current_functor: self.current_functor,
            watch: self.inspection_watch@,
            watch_set: self.inspection_set,
        }
    }
}

impl Interpreter {
    /// A machine at `start_instruction_index` with `registers` empty
    /// registers, an empty heap and empty stacks, watching the given
    /// variables.
    pub fn new(
        instructions: Vec<Instruction>,
        start_instruction_index: usize,
        registers: usize,
        descriptors: Vec<TermDescriptor>,
        variables_to_watch: &[InspectionVariable],
    ) -> (r: Self)
        ensures
            r@ == initial_model(instructions@, start_instruction_index, registers, descriptors@, variables_to_watch@),
            r@.instructions == instructions@,
            r@.descriptors == descriptors@,
            r@.ip == start_instruction_index,
            r@.continuation == start_instruction_index,
            r@.registers == Seq::new(registers as nat, |i: int| Cell::Undefined),
            r@.heap.len() == 0,
            r@.trail.len() == 0,
            r@.frames.len() == 0,
            r@.env_cells.len() == 0,
            r@.current_frame == 0,
            r@.choices.len() == 0,
            r@.choice_cells.len() == 0,
            r@.state == ExecutionState::Normal,
            r@.mode == Mode::Write,
            r@.next_sub_term == 0,
            r@.current_functor == DescriptorId(0),
            !r@.watch_set,
            r@.watch.len() == variables_to_watch@.len(),
            forall|i: int| 0 <= i < r@.watch.len() ==> #[trigger] r@.watch[i] == (WatchCell {
                address: CellAddress::Register { index: variables_to_watch@[i].register },
                descriptor_id: variables_to_watch@[i].variable,
            }),
    {
        let mut cells: Vec<Cell> = Vec::new();
        let mut i: usize = 0;
        while i < registers
            invariant
                i <= registers,
                cells@ == Seq::new(i as nat, |k: int| Cell::Undefined),
            decreases registers - i,
        {
            cells.push(Cell::Undefined);
            i += 1;
            assert(cells@ =~= Seq::new(i as nat, |k: int| Cell::Undefined));
        }
        let mut watch: Vec<WatchCell> = Vec::new();
        let mut j: usize = 0;
        while j < variables_to_watch.len()
            invariant
                j <= variables_to_watch@.len(),
                watch@.len() == j,
                forall|k: int| 0 <= k < j ==> #[trigger] watch@[k] == (WatchCell {
                    address: CellAddress::Register { index: variables_to_watch@[k].register },
                    descriptor_id: variables_to_watch@[k].variable,
                }),
            decreases variables_to_watch@.len() - j,
        {
            let var = variables_to_watch[j];
            watch.push(WatchCell { address: CellAddress::Register { index: var.register }, descriptor_id: var.variable });
            j += 1;
        }
        let ghost vars = variables_to_watch@;
        assert(watch@ =~= Seq::new(
            vars.len(),
            |i: int| WatchCell { address: CellAddress::Register { index: vars[i].register }, descriptor_id: vars[i].variable },
        ));
        let r = Interpreter {
            global_stack: Vec::new(),
            registers: cells,
            trail: Vec::new(),
            instructions,
            instruction_index: start_instruction_index,
            mode: Mode::Write,
            next_sub_term_address: 0,
            execution_state: ExecutionState::Normal,
            environment_stack: EnvironmentStack::new(),
            choice_point_stack: ChoicePointStack::new(),
            proceed_return_address: start_instruction_index,
            current_functor: DescriptorId(0),
            inspection_watch: watch,
            inspection_set: false,
            descriptors,
        };
        assert(r@.heap =~= Seq::<Cell>::empty());
        assert(r@.trail =~= Seq::<CellAddress>::empty());
        assert(r@.frames =~= Seq::<EnvironmentHead>::empty());
        assert(r@.env_cells =~= Seq::<Cell>::empty());
        assert(r@.choices =~= Seq::<ChoicePointHead>::empty());
        assert(r@.choice_cells =~= Seq::<Cell>::empty());
        r
    }

    fn frame_slot(&self, i: usize) -> (r: Option<usize>)
        ensures
            match frame_slot(self@, i) {
                Some(k) => r is Some && r->0 as int == k,
                None => r is None,
            },
    {
        let env = &self.environment_stack;
        if 0 < env.current && env.current <= env.frames.len() {
            let f = env.frames[env.current - 1];
            if i < f.num_variables && f.variables_address < env.cells.len() && i < env.cells.len() - f.variables_address {
                return Some(f.variables_address + i);
            }
        }
        None
    }

    fn read_address(&self, a: CellAddress) -> (r: Option<Cell>)
        ensures
            r == read_address(self@, a),
    {
        match a {
            CellAddress::GlobalStack { index } => if index < self.global_stack.len() {
                Some(self.global_stack[index])
            } else {
                None
            },
            CellAddress::Register { index } => match index {
                RegisterId::Permanent(i) => match self.frame_slot(i) {
                    Some(k) => Some(self.environment_stack.cells[k]),
                    None => None,
                },
                _ => {
                    let i = index.index_num();
                    if i < self.registers.len() {
                        Some(self.registers[i])
                    } else {
                        None
                    }
                },
            },
        }
    }

    fn read_register(&self, r: RegisterId) -> (c: Option<Cell>)
        ensures
            c == read_register(self@, r),
    {
        self.read_address(CellAddress::Register { index: r })
    }

    fn write_address(&mut self, a: CellAddress, c: Cell)
        ensures
            final(self)@ == write_address(old(self)@, a, c),
    {
        match a {
            CellAddress::GlobalStack { index } => if index < self.global_stack.len() {
                self.global_stack.set(index, c);
            },
            CellAddress::Register { index } => match index {
                RegisterId::Permanent(i) => match self.frame_slot(i) {
                    Some(k) => {
                        self.environment_stack.cells.set(k, c);
                    },
                    None => {},
                },
                _ => {
                    let i = index.index_num();
                    if i < self.registers.len() {
                        self.registers.set(i, c);
                    }
                },
            },
        }
    }

    fn write_register(&mut self, r: RegisterId, c: Cell)
        ensures
            final(self)@ == write_register(old(self)@, r, c),
    {
        self.write_address(CellAddress::Register { index: r }, c)
    }

    fn set_fault(&mut self)
        ensures
            final(self)@ == fault(old(self)@),
    {
        self.execution_state = ExecutionState::Fault;
    }

    /// The end of the reference chain that starts at `address`.
    fn deref_cell(&self, address: CellAddress) -> (r: Option<CellAddress>)
        ensures
            r == deref(self@, address, deref_fuel(self@)),
    {
        let mut current = address;
        let mut fuel: usize = self.global_stack.len();
        loop
            invariant
                deref(self@, current, fuel as nat) == deref(self@, address, deref_fuel(self@)),
            decreases fuel,
        {
            match self.read_address(current) {
                None => return None,
                Some(Cell::Reference(next)) => {
                    let next_address = CellAddress::GlobalStack { index: next };
                    if current == next_address {
                        return Some(current);
                    }
                    if fuel == 0 {
                        return None;
                    }
                    current = next_address;
                    fuel -= 1;
                },
                Some(_) => return Some(current),
            }
        }
    }

    fn try_trail(&mut self, address: CellAddress)
        ensures
            final(self)@ == try_trail(old(self)@, address),
    {
        if self.choice_point_stack.is_empty() {
            return;
        }
        let mark = self.choice_point_stack.get_stack_address();
        match address {
            CellAddress::GlobalStack { index } => if index < mark {
                self.trail.push(address);
            },
            _ => {},
        }
    }

    fn bind_address(&mut self, a: CellAddress, b: CellAddress)
        ensures
            final(self)@ == bind(old(self)@, a, b),
    {
        let a_value = match self.read_address(a) {
            Some(c) => c,
            None => Cell::Undefined,
        };
        let b_value = match self.read_address(b) {
            Some(c) => c,
            None => Cell::Undefined,
        };
        let (target, value) = match (a, b) {
            (CellAddress::Register { .. }, _) => (b, a_value),
            (_, CellAddress::Register { .. }) => (a, b_value),
            (CellAddress::GlobalStack { index: ia }, CellAddress::GlobalStack { index: ib }) => {
                let a_ref = matches!(a_value, Cell::Reference(_));
                let b_ref = matches!(b_value, Cell::Reference(_));
                if a_ref && b_ref {
                    if ia > ib {
                        (a, Cell::Reference(ib))
                    } else {
                        (b, Cell::Reference(ia))
                    }
                } else if a_ref {
                    (a, Cell::Reference(ib))
                } else {
                    (b, Cell::Reference(ia))
                }
            },
        };
        assert((target, value) == bind_target(self@, a, b));
        self.try_trail(target);
        self.write_address(target, value);
    }

    fn backtrack(&mut self)
        ensures
            final(self)@ == backtrack(old(self)@),
    {
        if self.choice_point_stack.is_empty() {
            self.execution_state = ExecutionState::Failure;
            return;
        }
        self.instruction_index = self.choice_point_stack.get_next_instruction();
    }

    fn unify_step(&mut self, x: CellAddress, y: CellAddress, work: &mut Vec<(CellAddress, CellAddress)>) -> (r: bool)
        ensures
            match unify_pair(old(self)@, x, y) {
                UnifyOutcome::Stop(m2) => !r && final(self)@ == m2,
                UnifyOutcome::Continue(m2, more) => r && final(self)@ == m2 && final(work)@ == old(work)@ + more,
            },
    {
        let ghost m = self@;
        let dx = match self.deref_cell(x) {
            Some(d) => d,
            None => {
                self.set_fault();
                return false;
            },
        };
        let dy = match self.deref_cell(y) {
            Some(d) => d,
            None => {
                self.set_fault();
                return false;
            },
        };
        if dx == dy {
            assert(work@ + Seq::<(CellAddress, CellAddress)>::empty() =~= work@);
            return true;
        }
        let (cx, cy) = match (self.read_address(dx), self.read_address(dy)) {
            (Some(cx), Some(cy)) => (cx, cy),
            _ => {
                self.set_fault();
                return false;
            },
        };
        if matches!(cx, Cell::Undefined) || matches!(cy, Cell::Undefined) {
            self.backtrack();
            return false;
        }
        if matches!(cx, Cell::Reference(_)) || matches!(cy, Cell::Reference(_)) {
            self.bind_address(dx, dy);
            assert(work@ + Seq::<(CellAddress, CellAddress)>::empty() =~= work@);
            return true;
        }
        match (cx, cy) {
            (Cell::StructureRef(ax), Cell::StructureRef(ay)) => {
                match (
                    self.read_address(CellAddress::GlobalStack { index: ax }),
                    self.read_address(CellAddress::GlobalStack { index: ay }),
                ) {
                    (Some(Cell::Structure(fx)), Some(Cell::Structure(fy))) => {
                        if fx != fy {
                            self.backtrack();
                            return false;
                        }
                        if fx.0 >= self.descriptors.len() {
                            self.set_fault();
                            return false;
                        }
                        let n = self.descriptors[fx.0].arity();
                        let len = self.global_stack.len();
                        if !(n < len - ax && n < len - ay) {
                            self.set_fault();
                            return false;
                        }
                        let mut i: usize = 0;
                        let ghost start = work@;
                        while i < n
                            invariant
                                i <= n,
                                n < len - ax,
                                n < len - ay,
                                ax < len,
                                ay < len,
                                work@ == start + argument_pairs(ax, ay, n).subrange(0, i as int),
                            decreases n - i,
                        {
                            work.push(
                                (CellAddress::GlobalStack { index: ax + 1 + i }, CellAddress::GlobalStack { index: ay + 1 + i }),
                            );
                            i += 1;
                            assert(work@ =~= start + argument_pairs(ax, ay, n).subrange(0, i as int));
                        }
                        assert(argument_pairs(ax, ay, n).subrange(0, n as int) =~= argument_pairs(ax, ay, n));
                        true
                    },
                    _ => {
                        self.set_fault();
                        false
                    },
                }
            },
            _ => {
                self.backtrack();
                false
            },
        }
    }

    /// Unifies the terms at `a` and `b`; on a mismatch the machine
    /// backtracks.
    fn unify(&mut self, a: CellAddress, b: CellAddress)
        ensures
            final(self)@ == unify(old(self)@, a, b),
    {
        let ghost m0 = self@;
        let mut work: Vec<(CellAddress, CellAddress)> = Vec::new();
        work.push((a, b));
        let mut fuel: u64 = UNIFY_WORK_LIMIT;
        assert(work@ =~= seq![(a, b)]);
        while work.len() > 0
            invariant
                unify_loop(self@, work@, fuel as nat) == unify(m0, a, b),
                m0 == old(self)@,
            decreases fuel,
        {
            if fuel == 0 {
                assert(unify_loop(self@, work@, fuel as nat) == fault(self@));
                self.set_fault();
                return;
            }
            let ghost before = work@;
            let pair = match work.pop() {
                Some(p) => p,
                None => return,
            };
            assert(pair == before.last() && work@ == before.drop_last());
            if !self.unify_step(pair.0, pair.1, &mut work) {
                return;
            }
            fuel -= 1;
        }
    }
}

impl Interpreter {
    /// Puts back the state saved by the topmost choice point.
    fn restore_choice_point(&mut self) -> (ok: bool)
        requires
            old(self)@.choices.len() > 0,
        ensures
            match restore(old(self)@, old(self)@.choices.last()) {
                Some(m1) => ok && final(self)@ == m1,
                None => !ok && final(self)@ == old(self)@,
            },
    {
        let ghost m = self@;
        let cp = self.choice_point_stack.top();
        let n = cp.num_arguments;
        let base = cp.arguments_address;
        if !(n <= self.registers.len() && base <= self.choice_point_stack.cells.len() && n
            <= self.choice_point_stack.cells.len() - base) {
            return false;
        }
        let mut i: usize = 0;
        assert(self.registers@ =~= Seq::new(
            m.registers.len(),
            |j: int| if j < 0 { m.choice_cells[base + j] } else { m.registers[j] },
        ));
        while i < n
            invariant
                m == old(self)@,
                n <= self.choice_point_stack.cells.len() - base,
                base <= self.choice_point_stack.cells.len(),
                cp == m.choices.last(),
                n == cp.num_arguments,
                base == cp.arguments_address,
                i <= n,
                n <= m.registers.len(),
                base + n <= m.choice_cells.len(),
                self@ == (MachineModel {
                    registers: Seq::new(
                        m.registers.len(),
                        |j: int| if j < i { m.choice_cells[base + j] } else { m.registers[j] },
                    ),
                    ..m
                }),
            decreases n - i,
        {
            let c = self.choice_point_stack.cells[base + i];
            self.registers.set(i, c);
            i += 1;
            assert(self.registers@ =~= Seq::new(
                m.registers.len(),
                |j: int| if j < i { m.choice_cells[base + j] } else { m.registers[j] },
            ));
        }
        self.environment_stack.current = cp.environment_address;
        self.environment_stack.frames.truncate(cp.environment_length);
        self.environment_stack.cells.truncate(cp.environment_cells);
        self.proceed_return_address = cp.continuation_address;
        let from = cp.trail_address;
        let mut k: usize = from;
        let ghost heap0 = self.global_stack@;
        let ghost mid = self@;
        assert(heap0 == m.heap);
        assert(mid.registers =~= restore(m, cp)->0.registers);
        assert(heap0 =~= Seq::new(
            heap0.len(),
            |j: int|
                if exists|t: int| from <= t < k && m.trail[t] == (CellAddress::GlobalStack { index: j as usize }) {
                    Cell::Reference(j as usize)
                } else {
                    heap0[j]
                },
        ));
        while k < self.trail.len()
            invariant
                self.trail@ == m.trail,
                self@ == (MachineModel { heap: self.global_stack@, ..mid }),
                heap0 == m.heap,
                from <= k,
                k <= m.trail.len() || k == from,
                self.global_stack@ == Seq::new(
                    heap0.len(),
                    |j: int|
                        if exists|t: int| from <= t < k && m.trail[t] == (CellAddress::GlobalStack { index: j as usize }) {
                            Cell::Reference(j as usize)
                        } else {
                            heap0[j]
                        },
                ),
            decreases self.trail@.len() - k,
        {
            let entry = self.trail[k];
            let ghost before = self.global_stack@;
            match entry {
                CellAddress::GlobalStack { index } => if index < self.global_stack.len() {
                    self.global_stack.set(index, Cell::Reference(index));
                },
                _ => {},
            }
            k += 1;
            assert forall|j: int| 0 <= j < heap0.len() implies #[trigger] self.global_stack@[j] == (if exists|t: int|
                from <= t < k && m.trail[t] == (CellAddress::GlobalStack { index: j as usize }) {
                Cell::Reference(j as usize)
            } else {
                heap0[j]
            }) by {
                if m.trail[k - 1] == (CellAddress::GlobalStack { index: j as usize }) {
                    assert(from <= k - 1 < k);
                } else {
                    if exists|t: int| from <= t < k && m.trail[t] == (CellAddress::GlobalStack { index: j as usize }) {
                        let t = choose|t: int| from <= t < k && m.trail[t] == (CellAddress::GlobalStack { index: j as usize });
                        assert(t != k - 1);
                        assert(from <= t < k - 1);
                    }
                }
            }
            assert(self.global_stack@ =~= Seq::new(
                heap0.len(),
                |j: int|
                    if exists|t: int| from <= t < k && m.trail[t] == (CellAddress::GlobalStack { index: j as usize }) {
                        Cell::Reference(j as usize)
                    } else {
                        heap0[j]
                    },
            ));
        }
        assert(self.global_stack@ =~= unwound(m.heap, m.trail, from)) by {
            assert forall|j: int| 0 <= j < heap0.len() implies #[trigger] self.global_stack@[j] == unwound(m.heap, m.trail, from)[j] by {
                if exists|t: int| from <= t < k && m.trail[t] == (CellAddress::GlobalStack { index: j as usize }) {
                    let t = choose|t: int| from <= t < k && m.trail[t] == (CellAddress::GlobalStack { index: j as usize });
                    assert(from <= t < m.trail.len());
                }
                if exists|t: int| from <= t < m.trail.len() && m.trail[t] == (CellAddress::GlobalStack { index: j as usize }) {
                    let t = choose|t: int| from <= t < m.trail.len() && m.trail[t] == (CellAddress::GlobalStack { index: j as usize });
                    assert(from <= t < k);
                }
            }
        }
        self.trail.truncate(cp.trail_address);
        self.global_stack.truncate(cp.stack_address);
        true
    }
}

impl Interpreter {
    fn snapshot_watch(&mut self)
        ensures
            final(self)@ == (MachineModel {
                watch: old(self)@.watch.map_values(|w: WatchCell| snapshot(old(self)@, w)),
                ..old(self)@
            }),
    {
        let ghost m = self@;
        let mut i: usize = 0;
        assert(self.inspection_watch@ =~= Seq::new(
            m.watch.len(),
            |j: int| if j < 0 { snapshot(m, m.watch[j]) } else { m.watch[j] },
        ));
        while i < self.inspection_watch.len()
            invariant
                m == old(self)@,
                i <= m.watch.len(),
                self@ == (MachineModel {
                    watch: Seq::new(m.watch.len(), |j: int| if j < i { snapshot(m, m.watch[j]) } else { m.watch[j] }),
                    ..m
                }),
            decreases m.watch.len() - i,
        {
            let w = self.inspection_watch[i];
            let moved = match self.read_address(w.address) {
                Some(Cell::Reference(h)) => WatchCell { address: CellAddress::GlobalStack { index: h }, ..w },
                Some(Cell::StructureRef(h)) => WatchCell { address: CellAddress::GlobalStack { index: h }, ..w },
                _ => w,
            };
            self.inspection_watch.set(i, moved);
            i += 1;
            assert(self.inspection_watch@ =~= Seq::new(
                m.watch.len(),
                |j: int| if j < i { snapshot(m, m.watch[j]) } else { m.watch[j] },
            ));
        }
        assert(self.inspection_watch@ =~= m.watch.map_values(|w: WatchCell| snapshot(m, w)));
    }

    fn execute_query(&mut self, instruction: Instruction)
        requires
            instruction is PutStructure || instruction is PutVariable || instruction is PutValue
                || instruction is SetVariable || instruction is SetValue,
        ensures
            final(self)@ == execute(old(self)@, instruction),
    {
        match instruction {
            Instruction::PutStructure { structure, register } => match self.read_register(register) {
                None => self.set_fault(),
                Some(_) => {
                    let h = self.global_stack.len();
                    self.global_stack.push(Cell::Structure(structure));
                    self.write_register(register, Cell::StructureRef(h));
                },
            },
            Instruction::PutVariable { argument_register, variable_register } => {
                match (self.read_register(argument_register), self.read_register(variable_register)) {
                    (Some(_), Some(_)) => {
                        let c = Cell::Reference(self.global_stack.len());
                        self.global_stack.push(c);
                        self.write_register(argument_register, c);
                        self.write_register(variable_register, c);
                    },
                    _ => self.set_fault(),
                }
            },
            Instruction::PutValue { argument_register, value_register } => match self.read_register(value_register) {
                Some(c) => match self.read_register(argument_register) {
                    Some(_) => self.write_register(argument_register, c),
                    None => self.set_fault(),
                },
                None => self.set_fault(),
            },
            Instruction::SetVariable { register } => match self.read_register(register) {
                None => self.set_fault(),
                Some(_) => {
                    let c = Cell::Reference(self.global_stack.len());
                    self.global_stack.push(c);
                    self.write_register(register, c);
                },
            },
            Instruction::SetValue { register } => match self.read_register(register) {
                Some(c) => self.global_stack.push(c),
                None => self.set_fault(),
            },
            _ => {},
        }
    }

    fn execute_program(&mut self, instruction: Instruction)
        requires
            instruction is GetStructure || instruction is GetVariable || instruction is GetValue
                || instruction is UnifyVariable || instruction is UnifyValue,
        ensures
            final(self)@ == execute(old(self)@, instruction),
    {
        match instruction {
            Instruction::GetStructure { structure, register } => {
                match self.deref_cell(CellAddress::Register { index: register }) {
                    None => self.set_fault(),
                    Some(address) => match self.read_address(address) {
                        Some(Cell::Reference(_)) => {
                            let h = self.global_stack.len();
                            if h >= usize::MAX {
                                self.set_fault();
                            } else {
                                self.global_stack.push(Cell::StructureRef(h + 1));
                                self.global_stack.push(Cell::Structure(structure));
                                self.bind_address(address, CellAddress::GlobalStack { index: h });
                                self.mode = Mode::Write;
                            }
                        },
                        Some(Cell::StructureRef(a)) => match self.read_address(CellAddress::GlobalStack { index: a }) {
                            Some(Cell::Structure(found)) => if found == structure {
                                assert(a < self.global_stack.len());
                                self.mode = Mode::Read;
                                self.next_sub_term_address = a + 1;
                            } else {
                                self.backtrack();
                            },
                            _ => self.set_fault(),
                        },
                        _ => self.set_fault(),
                    },
                }
            },
            Instruction::GetVariable { argument_register, variable_register } => {
                match self.read_register(argument_register) {
                    Some(c) => match self.read_register(variable_register) {
                        Some(_) => self.write_register(variable_register, c),
                        None => self.set_fault(),
                    },
                    None => self.set_fault(),
                }
            },
            Instruction::GetValue { argument_register, value_register } => {
                self.unify(
                    CellAddress::Register { index: value_register },
                    CellAddress::Register { index: argument_register },
                );
            },
            Instruction::UnifyVariable { register } => match self.read_register(register) {
                None => self.set_fault(),
                Some(_) => match self.mode {
                    Mode::Read => {
                        let s = self.next_sub_term_address;
                        if s < self.global_stack.len() {
                            let c = self.global_stack[s];
                            self.write_register(register, c);
                            self.next_sub_term_address = s + 1;
                        } else {
                            self.set_fault();
                        }
                    },
                    Mode::Write => {
                        let c = Cell::Reference(self.global_stack.len());
                        self.global_stack.push(c);
                        self.write_register(register, c);
                    },
                },
            },
            Instruction::UnifyValue { register } => match self.mode {
                Mode::Read => {
                    let s = self.next_sub_term_address;
                    if s < self.global_stack.len() {
                        self.unify(CellAddress::Register { index: register }, CellAddress::GlobalStack { index: s });
                        self.next_sub_term_address = s + 1;
                    } else {
                        self.set_fault();
                    }
                },
                Mode::Write => match self.read_register(register) {
                    Some(c) => self.global_stack.push(c),
                    None => self.set_fault(),
                },
            },
            _ => {},
        }
    }

    fn execute_control(&mut self, instruction: Instruction)
        requires
            instruction is DebugComment || instruction is NoOp || instruction is Proceed || instruction is Call
                || instruction is Allocate || instruction is Deallocate,
        ensures
            final(self)@ == execute(old(self)@, instruction),
    {
        match instruction {
            Instruction::Proceed => {
                self.instruction_index = self.proceed_return_address;
            },
            Instruction::Call { address, functor } => {
                if !self.inspection_set {
                    self.snapshot_watch();
                }
                self.proceed_return_address = self.instruction_index;
                self.instruction_index = address;
                self.current_functor = functor;
                self.inspection_set = true;
            },
            Instruction::Allocate { variables } => {
                let ghost m = self@;
                let env = &mut self.environment_stack;
                if env.frames.len() >= usize::MAX || variables > usize::MAX - env.cells.len() {
                    self.set_fault();
                    return;
                }
                let head = EnvironmentHead {
                    num_variables: variables,
                    continuation_address: self.proceed_return_address,
                    previous_environment_address: self.environment_stack.current,
                    variables_address: self.environment_stack.cells.len(),
                };
                self.environment_stack.frames.push(head);
                let mut i: usize = 0;
                while i < variables
                    invariant
                        i <= variables,
                        self@ == (MachineModel {
                            env_cells: m.env_cells + Seq::new(i as nat, |k: int| Cell::Undefined),
                            frames: m.frames.push(head),
                            ..m
                        }),
                    decreases variables - i,
                {
                    self.environment_stack.cells.push(Cell::Undefined);
                    i += 1;
                    assert(self.environment_stack.cells@ =~= m.env_cells + Seq::new(i as nat, |k: int| Cell::Undefined));
                }
                self.environment_stack.current = self.environment_stack.frames.len();
            },
            Instruction::Deallocate => {
                let current = self.environment_stack.current;
                if !(0 < current && current <= self.environment_stack.frames.len()) {
                    self.set_fault();
                    return;
                }
                let frame = self.environment_stack.frames[current - 1];
                self.instruction_index = frame.continuation_address;
                self.environment_stack.current = frame.previous_environment_address;
                let unprotected = self.choice_point_stack.is_empty()
                    || current - 1 >= self.choice_point_stack.top().environment_length;
                if current == self.environment_stack.frames.len() && unprotected {
                    self.environment_stack.frames.pop();
                    self.environment_stack.cells.truncate(frame.variables_address);
                }
            },
            _ => {},
        }
    }

    fn execute_choice(&mut self, instruction: Instruction)
        requires
            instruction is TryMeElse || instruction is RetryMeElse || instruction is TrustMe,
        ensures
            final(self)@ == execute(old(self)@, instruction),
    {
        let ghost m = self@;
        match instruction {
            Instruction::TryMeElse { else_address } => {
                let functor = self.current_functor;
                if functor.0 >= self.descriptors.len() {
                    self.set_fault();
                    return;
                }
                let n = self.descriptors[functor.0].arity();
                if n > self.registers.len() {
                    self.set_fault();
                    return;
                }
                let head = ChoicePointHead {
                    num_arguments: n,
                    arguments_address: self.choice_point_stack.cells.len(),
                    continuation_address: self.proceed_return_address,
                    environment_address: self.environment_stack.current,
                    environment_length: self.environment_stack.frames.len(),
                    environment_cells: self.environment_stack.cells.len(),
                    next_instruction_address: else_address,
                    trail_address: self.trail.len(),
                    stack_address: self.global_stack.len(),
                };
                self.choice_point_stack.frames.push(head);
                let mut i: usize = 0;
                while i < n
                    invariant
                        i <= n,
                        n <= m.registers.len(),
                        self@ == (MachineModel {
                            choice_cells: m.choice_cells + m.registers.subrange(0, i as int),
                            choices: m.choices.push(head),
                            ..m
                        }),
                    decreases n - i,
                {
                    let c = self.registers[i];
                    self.choice_point_stack.cells.push(c);
                    i += 1;
                    assert(self.choice_point_stack.cells@ =~= m.choice_cells + m.registers.subrange(0, i as int));
                }
            },
            Instruction::RetryMeElse { else_address } => {
                if self.choice_point_stack.is_empty() {
                    self.set_fault();
                    return;
                }
                if self.restore_choice_point() {
                    let last = self.choice_point_stack.frames.len() - 1;
                    let top = self.choice_point_stack.frames[last];
                    self.choice_point_stack.frames.set(last, ChoicePointHead { next_instruction_address: else_address, ..top });
                } else {
                    self.set_fault();
                }
            },
            Instruction::TrustMe => {
                if self.choice_point_stack.is_empty() {
                    self.set_fault();
                    return;
                }
                let top = self.choice_point_stack.top();
                if self.restore_choice_point() {
                    self.choice_point_stack.frames.pop();
                    self.choice_point_stack.cells.truncate(top.arguments_address);
                } else {
                    self.set_fault();
                }
            },
            _ => {},
        }
    }

    /// Executes the next instruction, if the machine is still running and
    /// has one; says whether it did.
    pub fn step(&mut self) -> (r: bool)
        ensures
            (final(self)@, r) == step_model(old(self)@),
    {
        if self.execution_state != ExecutionState::Normal {
            return false;
        }
        if self.instruction_index >= self.instructions.len() {
            return false;
        }
        let instruction = self.instructions[self.instruction_index];
        self.instruction_index += 1;
        match instruction {
            Instruction::PutStructure { .. } | Instruction::PutVariable { .. } | Instruction::PutValue { .. }
            | Instruction::SetVariable { .. } | Instruction::SetValue { .. } => self.execute_query(instruction),
            Instruction::GetStructure { .. } | Instruction::GetVariable { .. } | Instruction::GetValue { .. }
            | Instruction::UnifyVariable { .. } | Instruction::UnifyValue { .. } => self.execute_program(instruction),
            Instruction::TryMeElse { .. } | Instruction::RetryMeElse { .. } | Instruction::TrustMe => {
                self.execute_choice(instruction)
            },
            _ => self.execute_control(instruction),
        }
        true
    }

    /// Asks for the next solution: when a choice point is left and the
    /// machine has not stopped, resumes at its alternative and answers true.
    pub fn try_backtrack(&mut self) -> (r: bool)
        ensures
            (final(self)@, r) == try_backtrack_model(old(self)@),
    {
        if self.choice_point_stack.is_empty() || self.execution_state != ExecutionState::Normal {
            return false;
        }
        self.backtrack();
        true
    }
}

// ---------------------------------------------------------------------------
// Inspection

/// A term read back from memory.
pub enum TermTree {
    Unbound(usize),
    Undefined,
    Node(DescriptorId, Seq<TermTree>),
}

/// Heap index of the functor cell that the terminal address `d`, holding
/// `c`, stands for.
pub open spec fn functor_address(d: CellAddress, c: Cell) -> Option<usize> {
    match c {
        Cell::StructureRef(f) => Some(f),
        Cell::Structure(_) => match d {
            CellAddress::GlobalStack { index } => Some(index),
            _ => None,
        },
        _ => None,
    }
}

/// The term found at `a`: an unbound variable by its heap index, a
/// structure with its arguments read in turn (at most `fuel` levels deep),
/// or `Undefined` where memory holds no well-formed term.
pub open spec fn inspect_tree(m: MachineModel, a: CellAddress, fuel: nat) -> TermTree
    decreases fuel,
{
    match deref(m, a, deref_fuel(m)) {
        None => TermTree::Undefined,
        Some(d) => match read_address(m, d) {
            Some(Cell::Reference(i)) => if d == (CellAddress::GlobalStack { index: i }) {
                TermTree::Unbound(i)
            } else {
                TermTree::Undefined
            },
            Some(c) => match functor_address(d, c) {
                Some(fa) => if fuel == 0 {
                    TermTree::Undefined
                } else {
                    match read_address(m, CellAddress::GlobalStack { index: fa }) {
                        Some(Cell::Structure(f)) => match arity_of(m, f) {
                            Some(n) => if n < m.heap.len() - fa {
                                TermTree::Node(
                                    f,
                                    Seq::new(
                                        n as nat,
                                        |i: int|
                                            inspect_tree(
                                                m,
                                                CellAddress::GlobalStack { index: (fa + 1 + i) as usize },
                                                (fuel - 1) as nat,
                                            ),
                                    ),
                                )
                            } else {
                                TermTree::Undefined
                            },
                            None => TermTree::Undefined,
                        },
                        _ => TermTree::Undefined,
                    }
                },
                None => TermTree::Undefined,
            },
            None => TermTree::Undefined,
        },
    }
}

/// The value of a watched variable, as a tree.
#[derive(Debug)]
pub enum InspectionView {
    UnboundVariable { index: usize },
    Undefined,
    Structure { descriptor_id: DescriptorId, arguments: Vec<InspectionView> },
}

impl InspectionView {
    pub open spec fn tree(&self) -> TermTree
        decreases self,
    {
        match self {
            InspectionView::UnboundVariable { index } => TermTree::Unbound(*index),
            InspectionView::Undefined => TermTree::Undefined,
            InspectionView::Structure { descriptor_id, arguments } => TermTree::Node(
                *descriptor_id,
                Seq::new(
                    arguments@.len(),
                    |i: int|
                        if 0 <= i < arguments@.len() {
                            arguments@[i].tree()
                        } else {
                            TermTree::Undefined
                        },
                ),
            ),
        }
    }
}

/// The watched variables with their values, in watch-list order.
#[derive(Debug)]
pub struct InspectionResult {
    pub variables: Vec<(DescriptorId, InspectionView)>,
}

impl Interpreter {
    /// Reads back the term at `address`, at most `fuel` structure levels
    /// deep; memory is not changed.
    pub fn inspect_variable(&self, address: CellAddress, fuel: usize) -> (r: InspectionView)
        ensures
            r.tree() == inspect_tree(self@, address, fuel as nat),
        decreases fuel,
    {
        let d = match self.deref_cell(address) {
            Some(d) => d,
            None => return InspectionView::Undefined,
        };
        let c = match self.read_address(d) {
            Some(c) => c,
            None => return InspectionView::Undefined,
        };
        if let Cell::Reference(i) = c {
            if d == (CellAddress::GlobalStack { index: i }) {
                return InspectionView::UnboundVariable { index: i };
            }
            return InspectionView::Undefined;
        }
        let fa = match c {
            Cell::StructureRef(f) => f,
            Cell::Structure(_) => match d {
                CellAddress::GlobalStack { index } => index,
                _ => return InspectionView::Undefined,
            },
            _ => return InspectionView::Undefined,
        };
        if fuel == 0 {
            return InspectionView::Undefined;
        }
        let f = match self.read_address(CellAddress::GlobalStack { index: fa }) {
            Some(Cell::Structure(f)) => f,
            _ => return InspectionView::Undefined,
        };
        if f.0 >= self.descriptors.len() {
            return InspectionView::Undefined;
        }
        let n = self.descriptors[f.0].arity();
        if !(n < self.global_stack.len() - fa) {
            return InspectionView::Undefined;
        }
        let ghost m = self@;
        let heap_len = self.global_stack.len();
        let mut arguments: Vec<InspectionView> = Vec::new();
        let mut i: usize = 0;
        while i < n
            invariant
                m == self@,
                heap_len == self.global_stack@.len(),
                n < heap_len - fa,
                i <= n,
                fa < self.global_stack@.len(),
                n < self.global_stack@.len() - fa,
                fuel > 0,
                arguments@.len() == i,
                forall|k: int| 0 <= k < i ==> (#[trigger] arguments@[k]).tree() == inspect_tree(
                    m,
                    CellAddress::GlobalStack { index: (fa + 1 + k) as usize },
                    (fuel - 1) as nat,
                ),
            decreases n - i,
        {
            let view = self.inspect_variable(CellAddress::GlobalStack { index: fa + 1 + i }, fuel - 1);
            arguments.push(view);
            i += 1;
        }
        let ghost expected = Seq::new(
            n as nat,
            |k: int| inspect_tree(m, CellAddress::GlobalStack { index: (fa + 1 + k) as usize }, (fuel - 1) as nat),
        );
        assert(deref(m, address, deref_fuel(m)) == Some(d));
        assert(read_address(m, d) == Some(c));
        assert(functor_address(d, c) == Some(fa));
        assert(read_address(m, CellAddress::GlobalStack { index: fa }) == Some(Cell::Structure(f)));
        assert(arity_of(m, f) == Some(n));
        let ghost t = inspect_tree(self@, address, fuel as nat);
        assert(t matches TermTree::Node(g, args) && g == f && args =~= expected);
        let r = InspectionView::Structure { descriptor_id: f, arguments };
        assert(r.tree() matches TermTree::Node(g, args) && g == f && args =~= expected);
        r
    }

    /// The current value of every watched variable. Structures are read at
    /// most as many levels deep as the heap has cells.
    pub fn inspect(&self) -> (r: InspectionResult)
        ensures
            r.variables@.len() == self@.watch.len(),
            forall|i: int| 0 <= i < r.variables@.len() ==> (#[trigger] r.variables@[i]).0 == self@.watch[i].descriptor_id
                && r.variables@[i].1.tree() == inspect_tree(self@, self@.watch[i].address, self@.heap.len()),
    {
        let mut variables: Vec<(DescriptorId, InspectionView)> = Vec::new();
        let mut i: usize = 0;
        while i < self.inspection_watch.len()
            invariant
                i <= self@.watch.len(),
                variables@.len() == i,
                forall|k: int| 0 <= k < i ==> (#[trigger] variables@[k]).0 == self@.watch[k].descriptor_id
                    && variables@[k].1.tree() == inspect_tree(self@, self@.watch[k].address, self@.heap.len()),
            decreases self@.watch.len() - i,
        {
            let w = self.inspection_watch[i];
            let view = self.inspect_variable(w.address, self.global_stack.len());
            variables.push((w.descriptor_id, view));
            i += 1;
        }
        InspectionResult { variables }
    }
}

/// The machine after at most `fuel` steps: it stops earlier when a step
/// executes nothing.
pub open spec fn run_model(m: MachineModel, fuel: nat) -> MachineModel
    decreases fuel,
{
    if fuel == 0 {
        m
    } else {
        let (next, moved) = step_model(m);
        if moved {
            run_model(next, (fuel - 1) as nat)
        } else {
            m
        }
    }
}

impl Interpreter {
    /// Steps the machine until it stops or `step_limit` instructions have
    /// run; says whether it stopped by itself.
    pub fn run(&mut self, step_limit: usize) -> (r: bool)
        ensures
            final(self)@ == run_model(old(self)@, step_limit as nat),
            r == !step_model(final(self)@).1,
    {
        let mut left = step_limit;
        while left > 0
            invariant
                run_model(self@, left as nat) == run_model(old(self)@, step_limit as nat),
            decreases left,
        {
            if !self.step() {
                return true;
            }
            left -= 1;
        }
        self.execution_state != ExecutionState::Normal || self.instruction_index >= self.instructions.len()
    }
}

} // verus!
