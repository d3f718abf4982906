use vstd::prelude::*;
use crate::interpreter::Cell;

verus! {

/// What a choice point saves when it is pushed.
#[derive(Debug, Clone, Copy, PartialEq, Eq, Structural)]
pub struct ChoicePointHead {
    pub num_arguments: usize,
    /// Offset of the saved argument registers in the cell area.
    pub arguments_address: usize,
    pub continuation_address: usize,
    pub environment_address: usize,
    pub environment_length: usize,
    pub environment_cells: usize,
    pub next_instruction_address: usize,
    pub trail_address: usize,
    pub stack_address: usize,
}

/// A copy of one choice point, for display.
#[derive(Debug)]
pub struct InspectedChoicePoint {
    pub head: ChoicePointHead,
    pub arguments: Vec<Cell>,
}

/// The choice-point stack: headers, and one area holding the saved argument
/// registers of all choice points.
#[derive(Debug)]
pub struct ChoicePointStack {
    pub frames: Vec<ChoicePointHead>,
    pub cells: Vec<Cell>,
}

impl ChoicePointStack {
    pub fn new() -> (r: Self)
        ensures
            r.frames@.len() == 0,
            r.cells@.len() == 0,
    {
        ChoicePointStack { frames: Vec::new(), cells: Vec::new() }
    }

    pub fn is_empty(&self) -> (r: bool)
        ensures
            r == (self.frames@.len() == 0),
    {
        self.frames.len() == 0
    }

    /// Header of the topmost choice point.
    pub fn top(&self) -> (r: ChoicePointHead)
        requires
            self.frames@.len() > 0,
        ensures
            r == self.frames@.last(),
    {
        self.frames[self.frames.len() - 1]
    }

    pub fn get_continuation(&self) -> (r: usize)
        requires
            self.frames@.len() > 0,
        ensures
            r == self.frames@.last().continuation_address,
    {
        self.top().continuation_address
    }

    pub fn get_environment_address(&self) -> (r: usize)
        requires
            self.frames@.len() > 0,
        ensures
            r == self.frames@.last().environment_address,
    {
        self.top().environment_address
    }

    pub fn get_trail_address(&self) -> (r: usize)
        requires
            self.frames@.len() > 0,
        ensures
            r == self.frames@.last().trail_address,
    {
        self.top().trail_address
    }

    pub fn get_stack_address(&self) -> (r: usize)
        requires
            self.frames@.len() > 0,
        ensures
            r == self.frames@.last().stack_address,
    {
        self.top().stack_address
    }

    pub fn get_next_instruction(&self) -> (r: usize)
        requires
            self.frames@.len() > 0,
        ensures
            r == self.frames@.last().next_instruction_address,
    {
        self.top().next_instruction_address
    }

    /// Copies of all choice points, oldest first.
    pub fn inspect(&self) -> (r: Vec<InspectedChoicePoint>)
        ensures
            r@.len() == self.frames@.len(),
            forall|i: int| 0 <= i < r@.len() ==> (#[trigger] r@[i]).head == self.frames@[i],
            forall|i: int| 0 <= i < r@.len() && self.frames@[i].arguments_address + self.frames@[i].num_arguments <= self.cells@.len()
                ==> (#[trigger] r@[i]).arguments@ == self.cells@.subrange(
                self.frames@[i].arguments_address as int,
                self.frames@[i].arguments_address + self.frames@[i].num_arguments,
            ),
    {
        let mut out: Vec<InspectedChoicePoint> = Vec::new();
        let mut i: usize = 0;
        while i < self.frames.len()
            invariant
                i <= self.frames@.len(),
                out@.len() == i,
                forall|k: int| 0 <= k < i ==> (#[trigger] out@[k]).head == self.frames@[k],
                forall|k: int| 0 <= k < i && self.frames@[k].arguments_address + self.frames@[k].num_arguments <= self.cells@.len()
                    ==> (#[trigger] out@[k]).arguments@ == self.cells@.subrange(
                    self.frames@[k].arguments_address as int,
                    self.frames@[k].arguments_address + self.frames@[k].num_arguments,
                ),
            decreases self.frames@.len() - i,
        {
            let head = self.frames[i];
            let mut arguments: Vec<Cell> = Vec::new();
            let mut j: usize = 0;
            while j < head.num_arguments
                invariant
                    j <= head.num_arguments,
                    head.arguments_address + head.num_arguments <= self.cells@.len() ==> arguments@ == self.cells@.subrange(
                        head.arguments_address as int,
                        head.arguments_address + j,
                    ),
                decreases head.num_arguments - j,
            {
                if head.arguments_address <= self.cells.len() && j < self.cells.len() - head.arguments_address {
                    arguments.push(self.cells[head.arguments_address + j]);
                }
                j += 1;
                assert(head.arguments_address + head.num_arguments <= self.cells@.len() ==> arguments@ =~= self.cells@.subrange(
                    head.arguments_address as int,
                    head.arguments_address + j,
                ));
            }
            out.push(InspectedChoicePoint { head, arguments });
            i += 1;
        }
        out
    }
}

} // verus!
