use vstd::prelude::*;
use crate::compiler::CompileArtifact;
use crate::descriptor::DescriptorAllocator;
use crate::interpreter::{initial_model, run_model, step_model, ExecutionState, Interpreter};

verus! {

/// Why the executor could not run.
#[derive(Debug, Clone, Copy, PartialEq, Eq, Structural)]
pub enum ExecutorError {
    MissingQuery,
    MissingProgram,
}

/// The outcome of a run: whether the query succeeded, and whether the
/// machine stopped by itself within the step limit.
#[derive(Debug)]
pub struct EndUserResult {
    pub success: bool,
    pub finished: bool,
}

/// Holds a compiled program and query and the machine that runs them.
pub struct EndUserExecutor {
    pub program: Option<CompileArtifact>,
    pub query: Option<CompileArtifact>,
    pub interpreter: Option<Interpreter>,
}

/// The machine built for `query` (whose code holds the program's): its code
/// from the query's start, as many registers as either artifact needs.
pub open spec fn fresh_machine(
    query: CompileArtifact,
    program: CompileArtifact,
    descriptors: Seq<crate::descriptor::TermDescriptor>,
) -> crate::interpreter::MachineModel {
    initial_model(
        query.instructions@,
        query.start_instruction_index,
        if query.max_registers >= program.max_registers { query.max_registers } else { program.max_registers },
        descriptors,
        query.inspection_variables@,
    )
}

impl EndUserExecutor {
    pub fn new() -> (r: Self)
        ensures
            r.program is None,
            r.query is None,
            r.interpreter is None,
    {
        EndUserExecutor { program: None, query: None, interpreter: None }
    }

    /// Sets the program; a machine built for the earlier one is dropped.
    pub fn set_program(&mut self, program: CompileArtifact)
        ensures
            final(self).program == Some(program),
            final(self).query == old(self).query,
            final(self).interpreter is None,
    {
        self.program = Some(program);
        self.interpreter = None;
    }

    /// Sets the query; a machine built for the earlier one is dropped.
    pub fn set_query(&mut self, query: CompileArtifact)
        ensures
            final(self).query == Some(query),
            final(self).program == old(self).program,
            final(self).interpreter is None,
    {
        self.query = Some(query);
        self.interpreter = None;
    }

    /// Builds the machine for the query when there is none yet. The query's
    /// artifact holds the program's code with the query's after it.
    fn prepare_interpreter(&mut self, descriptors: &DescriptorAllocator) -> (r: Result<(), ExecutorError>)
        ensures
            final(self).program == old(self).program,
            final(self).query == old(self).query,
            r is Ok <==> (old(self).interpreter is Some || (old(self).query is Some && old(self).program is Some)),
            r matches Err(ExecutorError::MissingQuery) <==> (old(self).interpreter is None && old(self).query is None),
            r matches Err(ExecutorError::MissingProgram) <==> (old(self).interpreter is None && old(self).query is Some
                && old(self).program is None),
            r is Ok ==> final(self).interpreter is Some,
            old(self).interpreter is Some ==> final(self).interpreter == old(self).interpreter,
            r is Err ==> final(self).interpreter == old(self).interpreter,
            r is Ok && old(self).interpreter is None ==> final(self).interpreter->0@ == fresh_machine(
                old(self).query->0,
                old(self).program->0,
                descriptors.descriptors@,
            ),
    {
        if self.interpreter.is_some() {
            return Ok(());
        }
        let query = match &self.query {
            Some(q) => q,
            None => return Err(ExecutorError::MissingQuery),
        };
        let program = match &self.program {
            Some(p) => p,
            None => return Err(ExecutorError::MissingProgram),
        };
        let mut instructions = Vec::new();
        let mut i: usize = 0;
        while i < query.instructions.len()
            invariant
                i <= query.instructions@.len(),
                instructions@ == query.instructions@.subrange(0, i as int),
            decreases query.instructions@.len() - i,
        {
            instructions.push(query.instructions[i]);
            i += 1;
            assert(instructions@ =~= query.instructions@.subrange(0, i as int));
        }
        assert(query.instructions@.subrange(0, i as int) =~= query.instructions@);
        let registers = if query.max_registers >= program.max_registers {
            query.max_registers
        } else {
            program.max_registers
        };
        let interpreter = Interpreter::new(
            instructions,
            query.start_instruction_index,
            registers,
            descriptors.copy_descriptors(),
            query.inspection_variables.as_slice(),
        );
        self.interpreter = Some(interpreter);
        Ok(())
    }

    /// Runs the machine for at most `step_limit` steps and reports whether
    /// the query has succeeded.
    pub fn execute(&mut self, descriptors: &DescriptorAllocator, step_limit: usize) -> (r: Result<EndUserResult, ExecutorError>)
        ensures
            r is Ok <==> (old(self).interpreter is Some || (old(self).query is Some && old(self).program is Some)),
            r matches Err(ExecutorError::MissingQuery) <==> (old(self).interpreter is None && old(self).query is None),
            r matches Err(ExecutorError::MissingProgram) <==> (old(self).interpreter is None && old(self).query is Some
                && old(self).program is None),
            r matches Ok(res) ==> ({
                let m = final(self).interpreter->0@;
                &&& res.finished == !step_model(m).1
                &&& res.success == (res.finished && m.state == ExecutionState::Normal)
            }),
            old(self).interpreter is Some && r is Ok ==> final(self).interpreter->0@ == run_model(
                old(self).interpreter->0@,
                step_limit as nat,
            ),
            old(self).interpreter is None && r is Ok ==> final(self).interpreter->0@ == run_model(
                fresh_machine(old(self).query->0, old(self).program->0, descriptors.descriptors@),
                step_limit as nat,
            ),
            r is Err ==> final(self).interpreter is None,
    {
        match self.prepare_interpreter(descriptors) {
            Ok(()) => {},
            Err(e) => return Err(e),
        }
        let interpreter = match &mut self.interpreter {
            Some(i) => i,
            None => return Err(ExecutorError::MissingQuery),
        };
        let finished = interpreter.run(step_limit);
        let success = finished && interpreter.execution_state == ExecutionState::Normal;
        Ok(EndUserResult { success, finished })
    }
}

} // verus!
