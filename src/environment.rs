use vstd::prelude::*;
use crate::interpreter::Cell;

verus! {

/// Header of an environment frame. Frame addresses count from one; address
/// zero means "no frame".
#[derive(Debug, Clone, Copy, PartialEq, Eq, Structural)]
pub struct EnvironmentHead {
    pub num_variables: usize,
    pub continuation_address: usize,
    pub previous_environment_address: usize,
    /// Offset of the frame's first permanent variable in the cell area.
    pub variables_address: usize,
}

/// A copy of one frame, for display.
#[derive(Debug)]
pub struct InspectedEnvironment {
    pub head: EnvironmentHead,
    pub variables: Vec<Cell>,
}

/// The environment stack: frame headers, and one area holding the permanent
/// variables of all frames. `current` is the address of the active frame.
#[derive(Debug)]
pub struct EnvironmentStack {
    pub frames: Vec<EnvironmentHead>,
    pub cells: Vec<Cell>,
    pub current: usize,
}

/// `s` cut down to its first `n` items, as `Vec::truncate` does.
pub open spec fn truncated<T>(s: Seq<T>, n: usize) -> Seq<T> {
    if n <= s.len() {
        s.subrange(0, n as int)
    } else {
        s
    }
}

impl EnvironmentStack {
    pub fn new() -> (r: Self)
        ensures
            r.frames@.len() == 0,
            r.cells@.len() == 0,
            r.current == 0,
    {
        EnvironmentStack { frames: Vec::new(), cells: Vec::new(), current: 0 }
    }

    /// Address of the active frame (zero when there is none).
    pub fn get_current_address(&self) -> (r: usize)
        ensures
            r == self.current,
    {
        self.current
    }

    /// Copies of all frames, oldest first.
    pub fn inspect(&self) -> (r: Vec<InspectedEnvironment>)
        ensures
            r@.len() == self.frames@.len(),
            forall|i: int| 0 <= i < r@.len() ==> (#[trigger] r@[i]).head == self.frames@[i],
            forall|i: int| 0 <= i < r@.len() && self.frames@[i].variables_address + self.frames@[i].num_variables <= self.cells@.len()
                ==> (#[trigger] r@[i]).variables@ == self.cells@.subrange(
                self.frames@[i].variables_address as int,
                self.frames@[i].variables_address + self.frames@[i].num_variables,
            ),
    {
        let mut out: Vec<InspectedEnvironment> = Vec::new();
        let mut i: usize = 0;
        while i < self.frames.len()
            invariant
                i <= self.frames@.len(),
                out@.len() == i,
                forall|k: int| 0 <= k < i ==> (#[trigger] out@[k]).head == self.frames@[k],
                forall|k: int| 0 <= k < i && self.frames@[k].variables_address + self.frames@[k].num_variables <= self.cells@.len()
                    ==> (#[trigger] out@[k]).variables@ == self.cells@.subrange(
                    self.frames@[k].variables_address as int,
                    self.frames@[k].variables_address + self.frames@[k].num_variables,
                ),
            decreases self.frames@.len() - i,
        {
            let head = self.frames[i];
            let mut variables: Vec<Cell> = Vec::new();
            let mut j: usize = 0;
            while j < head.num_variables
                invariant
                    j <= head.num_variables,
                    head.variables_address + head.num_variables <= self.cells@.len() ==> variables@ == self.cells@.subrange(
                        head.variables_address as int,
                        head.variables_address + j,
                    ),
                decreases head.num_variables - j,
            {
                if head.variables_address <= self.cells.len() && j < self.cells.len() - head.variables_address {
                    variables.push(self.cells[head.variables_address + j]);
                }
                j += 1;
                assert(head.variables_address + head.num_variables <= self.cells@.len() ==> variables@ =~= self.cells@.subrange(
                    head.variables_address as int,
                    head.variables_address + j,
                ));
            }
            out.push(InspectedEnvironment { head, variables });
            i += 1;
        }
        out
    }
}

} // verus!
