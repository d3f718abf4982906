use prolog_wan::compiler::{CompileError, Compiler, RegistryAllocator};
use prolog_wan::descriptor::{DescriptorAllocator, DescriptorKind};
use prolog_wan::end_user_executor::{EndUserExecutor, ExecutorError};
use prolog_wan::instructions::{DescriptorId, Instruction, RegisterId};
use prolog_wan::interpreter::{ExecutionState, InspectionResult, InspectionView, Interpreter};
use prolog_wan::parsing::{parse, ParseError};
use prolog_wan::solution::{render_inspection, render_view};
use prolog_wan::terms::{AbstractProgram, AbstractTerm};
use prolog_wan::traversal::{DepthFirstIterator, FactIterator, QueryIterator};

fn machine(program: &[&str], query: &str) -> (Compiler, Interpreter) {
    let mut compiler = Compiler::new();
    for clause in program {
        compiler.add_program(&parse(clause).unwrap()).unwrap();
    }
    let artifact = compiler.compile(&parse(query).unwrap()).unwrap();
    let interpreter = Interpreter::new(
        artifact.instructions,
        artifact.start_instruction_index,
        artifact.max_registers,
        compiler.descriptor_allocator.descriptors.clone(),
        &artifact.inspection_variables,
    );
    (compiler, interpreter)
}

fn solutions(program: &[&str], query: &str) -> Vec<String> {
    let (compiler, mut interpreter) = machine(program, query);
    let mut out = Vec::new();
    loop {
        assert!(interpreter.run(100_000));
        if interpreter.execution_state == ExecutionState::Normal {
            out.push(render_inspection(&interpreter.inspect(), &compiler.descriptor_allocator.descriptors));
        }
        if !interpreter.try_backtrack() {
            break;
        }
    }
    out
}

fn names(items: Vec<String>) -> String {
    items.join(" ")
}

#[test]
fn scenario_no_solution() {
    assert!(solutions(&["p(Z, Z)."], "p(z, w).").is_empty());
}

#[test]
fn scenario_ground_query_succeeds_without_bindings() {
    assert_eq!(solutions(&["p(Z, Z)."], "p(z, z)."), vec!["".to_string()]);
}

#[test]
fn scenario_structures_bind_through_shared_variables() {
    assert_eq!(
        solutions(&["p(f(X), h(Y, f(a)), Y)."], "p(Z, h(Z, W), f(W))."),
        vec!["Z = f(f(a)), W = f(a)".to_string()]
    );
}

#[test]
fn scenario_rule_chains_two_facts() {
    assert_eq!(
        solutions(&["q(q, s).", "r(s, t).", "p(X, Y) :- q(X, Z), r(Z, Y)."], "p(X, Y)."),
        vec!["X = q, Y = t".to_string()]
    );
}

#[test]
fn scenario_three_facts_in_order() {
    assert_eq!(solutions(&["h(x).", "h(y).", "h(z)."], "h(X)."), vec!["X = x", "X = y", "X = z"]);
}

#[test]
fn scenario_jealous_enumerates_six_solutions() {
    let program = [
        "loves(vincent, mia).",
        "loves(marcellus, mia).",
        "loves(pumpkin, honeybunny).",
        "loves(honeybunny, pumpkin).",
        "jealous(X,Y) :- loves(X,Z), loves(Y,Z).",
    ];
    assert_eq!(
        solutions(&program, "jealous(X, Y)."),
        vec![
            "X = vincent, Y = vincent",
            "X = vincent, Y = marcellus",
            "X = marcellus, Y = vincent",
            "X = marcellus, Y = marcellus",
            "X = pumpkin, Y = pumpkin",
            "X = honeybunny, Y = honeybunny",
        ]
    );
}

#[test]
fn trust_me_restores_marks_of_try_me_else() {
    let (_, mut m) = machine(&["h(x).", "h(y).", "h(z)."], "h(X).");
    let mut saved: Vec<(usize, usize, usize, usize, usize)> = Vec::new();
    let mut checked = 0;
    for _ in 0..10_000 {
        let next = m.instructions.get(m.instruction_index).copied();
        let before = (
            m.global_stack.len(),
            m.trail.len(),
            m.environment_stack.current,
            m.environment_stack.frames.len(),
            m.choice_point_stack.frames.len(),
        );
        let moved = m.step();
        if moved && matches!(next, Some(Instruction::TryMeElse { .. })) {
            saved.push(before);
        }
        if moved && matches!(next, Some(Instruction::TrustMe)) {
            let mark = saved.pop().unwrap();
            assert_eq!(m.global_stack.len(), mark.0);
            assert_eq!(m.trail.len(), mark.1);
            assert_eq!(m.environment_stack.current, mark.2);
            assert_eq!(m.environment_stack.frames.len(), mark.3);
            assert_eq!(m.choice_point_stack.frames.len(), mark.4);
            checked += 1;
        }
        if !moved && !m.try_backtrack() {
            break;
        }
    }
    assert_eq!(checked, 1);
}

#[test]
fn binding_points_newer_variable_at_older() {
    // B's cell (heap 1) is bound to A's (heap 0); both read back through the chain.
    assert_eq!(solutions(&["p(X, X)."], "p(A, B)."), vec!["A = _0, B = _0"]);
}

#[test]
fn enumeration_ends_after_last_solution() {
    let (_, mut m) = machine(&["h(x).", "h(y)."], "h(X).");
    let mut rounds = 0;
    loop {
        assert!(m.run(10_000));
        rounds += 1;
        if !m.try_backtrack() {
            break;
        }
    }
    assert_eq!(rounds, 2);
    assert!(!m.try_backtrack());
}

#[test]
fn failure_is_not_a_fault() {
    let (_, mut m) = machine(&["p(a)."], "p(b).");
    assert!(m.run(1000));
    assert_eq!(m.execution_state, ExecutionState::Failure);
    assert!(!m.step());
    assert!(!m.try_backtrack());
}

#[test]
fn out_of_range_register_faults() {
    let instructions = vec![Instruction::GetStructure { structure: DescriptorId(0), register: RegisterId::Temporary(5) }];
    let mut m = Interpreter::new(instructions, 0, 1, Vec::new(), &[]);
    assert!(m.step());
    assert_eq!(m.execution_state, ExecutionState::Fault);
    assert!(!m.step());
    assert!(!m.try_backtrack());
}

#[test]
fn permanent_slot_without_frame_faults() {
    let instructions = vec![Instruction::SetVariable { register: RegisterId::Permanent(0) }];
    let mut m = Interpreter::new(instructions, 0, 1, Vec::new(), &[]);
    assert!(m.step());
    assert_eq!(m.execution_state, ExecutionState::Fault);
    assert!(m.global_stack.is_empty());
}

#[test]
fn put_structure_appends_functor_cell() {
    let instructions = vec![
        Instruction::PutStructure { structure: DescriptorId(0), register: RegisterId::Argument(0) },
        Instruction::SetVariable { register: RegisterId::Temporary(1) },
    ];
    let mut m = Interpreter::new(instructions, 0, 2, Vec::new(), &[]);
    assert!(m.step());
    assert!(m.step());
    assert!(!m.step());
    assert_eq!(m.global_stack.len(), 2);
    assert_eq!(m.registers[0], prolog_wan::interpreter::Cell::StructureRef(0));
    assert_eq!(m.registers[1], prolog_wan::interpreter::Cell::Reference(1));
}

#[test]
fn undefined_functor_in_query() {
    let mut compiler = Compiler::new();
    compiler.add_program(&parse("p(a).").unwrap()).unwrap();
    match compiler.compile(&parse("q(X).").unwrap()) {
        Err(CompileError::UndefinedFunctor { name, arity }) => {
            assert_eq!(name, "q");
            assert_eq!(arity, 1);
        }
        other => panic!("unexpected {:?}", other.map(|_| ())),
    }
    match compiler.compile(&parse("p(X, Y).").unwrap()) {
        Err(CompileError::UndefinedFunctor { name, arity }) => {
            assert_eq!(name, "p");
            assert_eq!(arity, 2);
        }
        other => panic!("unexpected {:?}", other.map(|_| ())),
    }
}

#[test]
fn undefined_goal_in_rule_leaves_code_unchanged() {
    let mut compiler = Compiler::new();
    compiler.add_program(&parse("q(a).").unwrap()).unwrap();
    let before = compiler.instructions.len();
    match compiler.add_program(&parse("p(X) :- q(X), r(X).").unwrap()) {
        Err(CompileError::UndefinedFunctor { name, arity }) => {
            assert_eq!(name, "r");
            assert_eq!(arity, 1);
        }
        other => panic!("unexpected {:?}", other),
    }
    assert_eq!(compiler.instructions.len(), before);
}

#[test]
fn recursive_rule_may_call_itself() {
    let mut compiler = Compiler::new();
    compiler.add_program(&parse("nat(z).").unwrap()).unwrap();
    assert!(compiler.add_program(&parse("nat(s(X)) :- nat(X).").unwrap()).is_ok());
}

#[test]
fn recursion_enumerates_in_depth_first_order() {
    let found = {
        let (compiler, mut m) = machine(&["nat(z).", "nat(s(X)) :- nat(X)."], "nat(N).");
        let mut out = Vec::new();
        for _ in 0..3 {
            assert!(m.run(100_000));
            out.push(render_inspection(&m.inspect(), &compiler.descriptor_allocator.descriptors));
            assert!(m.try_backtrack());
        }
        out
    };
    assert_eq!(found[0], "N = z");
    assert!(found[1].starts_with("N = s(z"));
    assert!(found[2].starts_with("N = s(s(z"));
}

#[test]
fn rule_as_query_and_variable_clause_are_refused() {
    let mut compiler = Compiler::new();
    compiler.add_program(&parse("p(a).").unwrap()).unwrap();
    assert!(matches!(compiler.compile(&parse("p(X) :- p(X).").unwrap()), Err(CompileError::RuleAsQuery)));
    assert!(matches!(compiler.add_program(&parse("X.").unwrap()), Err(CompileError::VariableTerm)));
    assert!(matches!(compiler.compile(&parse("X.").unwrap()), Err(CompileError::VariableTerm)));
}

#[test]
fn clauses_of_one_functor_are_linked() {
    let mut compiler = Compiler::new();
    for clause in ["h(x).", "g(a).", "h(y).", "h(z)."] {
        compiler.add_program(&parse(clause).unwrap()).unwrap();
    }
    let tries = compiler.instructions.iter().filter(|i| matches!(i, Instruction::TryMeElse { .. })).count();
    let retries = compiler.instructions.iter().filter(|i| matches!(i, Instruction::RetryMeElse { .. })).count();
    let trusts = compiler.instructions.iter().filter(|i| matches!(i, Instruction::TrustMe)).count();
    assert_eq!((tries, retries, trusts), (1, 1, 1));
    assert_eq!(compiler.instructions[0], Instruction::TryMeElse { else_address: 8 });
}

#[test]
fn parse_reads_facts_and_rules() {
    match parse("  p( X , f(a) ) . ").unwrap() {
        AbstractProgram::Fact(f) => {
            assert_eq!(f.name(), "p");
            assert_eq!(f.arity(), 2);
        }
        _ => panic!("expected a fact"),
    }
    match parse("p(X) :- q(X), r.").unwrap() {
        AbstractProgram::Rule(r) => {
            assert_eq!(r.head.name(), "p");
            assert_eq!(r.goals.len(), 2);
            assert!(matches!(&r.goals[1], AbstractTerm::Constant(n) if n == "r"));
        }
        _ => panic!("expected a rule"),
    }
}

#[test]
fn parse_errors() {
    assert_eq!(parse("p(a").unwrap_err(), ParseError::UnexpectedEnd);
    assert_eq!(parse("p(a) x").unwrap_err(), ParseError::UnexpectedCharacter { position: 5 });
    assert_eq!(parse("X(a).").unwrap_err(), ParseError::UnexpectedCharacter { position: 1 });
    assert_eq!(parse("").unwrap_err(), ParseError::UnexpectedEnd);
}

#[test]
fn descriptors_are_interned_by_key() {
    let mut table = DescriptorAllocator::new();
    let a = table.get_or_set(&AbstractTerm::Constant("a".to_string()));
    let a_var = table.get_or_set(&AbstractTerm::Variable("a".to_string()));
    let again = table.get_or_set(&AbstractTerm::Constant("a".to_string()));
    assert_eq!(a, again);
    assert_ne!(a, a_var);
    assert_eq!(table.descriptors.len(), 2);
    assert_eq!(table.get(a).arity(), 0);
    assert!(matches!(table.get(a_var).kind, DescriptorKind::Variable));
}

#[test]
fn permanent_variables_of_jealous() {
    let mut table = DescriptorAllocator::new();
    let rule = match parse("jealous(X, Y) :- loves(X, Z), loves(Y, Z).").unwrap() {
        AbstractProgram::Rule(r) => r,
        _ => panic!(),
    };
    let permanents = RegistryAllocator::prepare_permanent_variables(&rule, &mut table);
    let named: Vec<(String, usize)> =
        permanents.iter().map(|(d, slot)| (table.get(*d).name.clone(), *slot)).collect();
    assert_eq!(named, vec![("Y".to_string(), 1), ("Z".to_string(), 0)]);
}

#[test]
fn traversal_orders() {
    let term = match parse("p(f(X), h(Y, f(a)), Y).").unwrap() {
        AbstractProgram::Fact(f) => f.term,
        _ => panic!(),
    };
    let collect = |mut next: Box<dyn FnMut() -> Option<(String, usize)>>| {
        let mut out = Vec::new();
        while let Some((name, level)) = next() {
            out.push(format!("{}{}", name, level));
        }
        out
    };
    let mut fact = FactIterator::new(&term);
    let bfs = collect(Box::new(move || fact.next().map(|i| (i.term.name().to_string(), i.level))));
    assert_eq!(names(bfs), "f1 h1 Y1 X2 Y2 f2 a3");
    let mut query = QueryIterator::new(&term);
    let post = collect(Box::new(move || query.next().map(|i| (i.term.name().to_string(), i.level))));
    assert_eq!(names(post), "X2 f1 Y2 a3 f2 h1 Y1");
    let mut depth = DepthFirstIterator::new(&term);
    let pre = collect(Box::new(move || depth.next().map(|i| (i.term.name().to_string(), i.level))));
    assert_eq!(names(pre), "f1 X2 h1 Y2 f2 a3 Y1");
}

#[test]
fn render_formats() {
    let mut table = DescriptorAllocator::new();
    let f = table.get_or_set(&parse_term("f(a, b)"));
    let a = table.get_or_set(&AbstractTerm::Constant("a".to_string()));
    let x = table.get_or_set(&AbstractTerm::Variable("X".to_string()));
    let view = InspectionView::Structure {
        descriptor_id: f,
        arguments: vec![
            InspectionView::Structure { descriptor_id: a, arguments: vec![] },
            InspectionView::UnboundVariable { index: 1207 },
        ],
    };
    let mut out = String::new();
    render_view(&mut out, &view, &table.descriptors);
    assert_eq!(out, "f(a, _1207)");
    let result = InspectionResult {
        variables: vec![(x, view), (x, InspectionView::UnboundVariable { index: 0 })],
    };
    assert_eq!(render_inspection(&result, &table.descriptors), "X = f(a, _1207), X = _0");
}

fn parse_term(text: &str) -> AbstractTerm {
    match parse(&format!("{}.", text)).unwrap() {
        AbstractProgram::Fact(f) => f.term,
        _ => panic!(),
    }
}

#[test]
fn executor_needs_query_and_program() {
    let mut compiler = Compiler::new();
    compiler.add_program(&parse("p(a).").unwrap()).unwrap();
    let mut executor = EndUserExecutor::new();
    assert!(matches!(executor.execute(&compiler.descriptor_allocator, 100), Err(ExecutorError::MissingQuery)));
    let query = compiler.compile(&parse("p(a).").unwrap()).unwrap();
    executor.set_query(query);
    assert!(matches!(executor.execute(&compiler.descriptor_allocator, 100), Err(ExecutorError::MissingProgram)));
    let program = compiler.compile(&parse("p(X).").unwrap()).unwrap();
    executor.set_program(program);
    let result = executor.execute(&compiler.descriptor_allocator, 100).unwrap();
    assert!(result.finished);
    assert!(result.success);
}

#[test]
fn executor_step_limit() {
    let mut compiler = Compiler::new();
    compiler.add_program(&parse("loop(X) :- loop(X).").unwrap()).unwrap();
    let query = compiler.compile(&parse("loop(a).").unwrap()).unwrap();
    let mut executor = EndUserExecutor::new();
    let program = compiler.compile(&parse("loop(b).").unwrap()).unwrap();
    executor.set_query(query);
    executor.set_program(program);
    let result = executor.execute(&compiler.descriptor_allocator, 50).unwrap();
    assert!(!result.finished);
    assert!(!result.success);
}

#[test]
fn rendered_solution_unifies_with_query() {
    let program = ["p(f(X), h(Y, f(a)), Y)."];
    let query = "p(Z, h(Z, W), f(W)).";
    let found = solutions(&program, query);
    assert_eq!(found.len(), 1);
    // Put the bindings into the query and read the instance back as a fact.
    let mut instance = query.to_string();
    for binding in found[0].split(", ") {
        let (name, value) = binding.split_once(" = ").unwrap();
        instance = instance.replace(name, value);
    }
    assert_eq!(instance, "p(f(f(a)), h(f(f(a)), f(a)), f(f(a))).");
    assert_eq!(solutions(&[instance.as_str()], query).len(), 1);
}

#[test]
fn head_matches_arguments_built_for_same_term() {
    // The query's put/set code and the fact's get/unify code for one term meet.
    for term in ["p(a).", "p(f(X), Y, X).", "p(g(h(A, B), A), B)."] {
        assert_eq!(solutions(&[term], term).len(), 1);
    }
}

#[test]
fn pretty_names() {
    let mut table = DescriptorAllocator::new();
    let f = table.get_or_set(&parse_term("f(a, b, c, d, e, g, h, i, j, k, l, m)"));
    let x = table.get_or_set(&AbstractTerm::Variable("X".to_string()));
    assert_eq!(table.get(f).pretty_name(), "f/12");
    assert_eq!(table.get(x).pretty_name(), "X(var)");
}
