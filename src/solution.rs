use vstd::prelude::*;
use vstd::string::StringExecFns;
use crate::descriptor::{DescriptorKind, TermDescriptor};
use crate::instructions::DescriptorId;
use crate::interpreter::{InspectionResult, InspectionView, TermTree};

verus! {

broadcast use vstd::std_specs::vec::group_vec_axioms;

pub open spec fn digit_char(d: nat) -> char {
    if d == 0 { '0' }
    else if d == 1 { '1' }
    else if d == 2 { '2' }
    else if d == 3 { '3' }
    else if d == 4 { '4' }
    else if d == 5 { '5' }
    else if d == 6 { '6' }
    else if d == 7 { '7' }
    else if d == 8 { '8' }
    else { '9' }
}

/// `n` in decimal, without leading zeros.
pub open spec fn decimal(n: nat) -> Seq<char>
    decreases n,
{
    if n < 10 {
        seq![digit_char(n)]
    } else {
        decimal(n / 10).push(digit_char(n % 10))
    }
}

pub open spec fn name_of(descriptors: Seq<TermDescriptor>, d: DescriptorId) -> Seq<char> {
    if d.0 < descriptors.len() {
        descriptors[d.0 as int].name@
    } else {
        Seq::empty()
    }
}

/// The parts separated by `", "`.
pub open spec fn comma_join(parts: Seq<Seq<char>>) -> Seq<char>
    decreases parts.len(),
{
    if parts.len() == 0 {
        Seq::empty()
    } else if parts.len() == 1 {
        parts[0]
    } else {
        comma_join(parts.drop_last()) + seq![',', ' '] + parts.last()
    }
}

/// A term as a solution shows it: `_<heap index>` for an unbound variable,
/// `name` for a nullary functor, `name(arg, ...)` for a structure.
pub open spec fn render_tree(t: TermTree, descriptors: Seq<TermDescriptor>) -> Seq<char>
    decreases t, 1int,
{
    match t {
        TermTree::Unbound(i) => seq!['_'] + decimal(i as nat),
        TermTree::Undefined => seq!['u', 'n', 'd', 'e', 'f', 'i', 'n', 'e', 'd'],
        TermTree::Node(d, args) => if args.len() == 0 {
            name_of(descriptors, d)
        } else {
            name_of(descriptors, d) + seq!['('] + comma_join(rendered_arguments(t, descriptors)) + seq![')']
        },
    }
}

/// The renderings of a structure's arguments.
pub open spec fn rendered_arguments(t: TermTree, descriptors: Seq<TermDescriptor>) -> Seq<Seq<char>>
    decreases t, 0int,
{
    match t {
        TermTree::Node(_, args) => Seq::new(
            args.len(),
            |i: int| if 0 <= i < args.len() { render_tree(args[i], descriptors) } else { Seq::empty() },
        ),
        _ => Seq::empty(),
    }
}

pub open spec fn solution_parts(
    variables: Seq<(DescriptorId, InspectionView)>,
    descriptors: Seq<TermDescriptor>,
) -> Seq<Seq<char>> {
    Seq::new(
        variables.len(),
        |i: int| name_of(descriptors, variables[i].0) + seq![' ', '=', ' '] + render_tree(variables[i].1.tree(), descriptors),
    )
}

/// One solution: `Name = value` for each watched variable, in watch order,
/// separated by `", "`.
pub open spec fn render_solution(
    variables: Seq<(DescriptorId, InspectionView)>,
    descriptors: Seq<TermDescriptor>,
) -> Seq<char> {
    comma_join(solution_parts(variables, descriptors))
}

pub proof fn lemma_comma_join_prefix(parts: Seq<Seq<char>>, i: int)
    requires
        0 <= i < parts.len(),
    ensures
        comma_join(parts.subrange(0, i + 1)) == if i == 0 {
            parts[0]
        } else {
            comma_join(parts.subrange(0, i)) + seq![',', ' '] + parts[i]
        },
{
    assert(parts.subrange(0, i + 1).drop_last() =~= parts.subrange(0, i));
}

fn digit_str(d: usize) -> (r: &'static str)
    requires
        d < 10,
    ensures
        r@ == seq![digit_char(d as nat)],
{
    proof {
        reveal_strlit("0");
        reveal_strlit("1");
        reveal_strlit("2");
        reveal_strlit("3");
        reveal_strlit("4");
        reveal_strlit("5");
        reveal_strlit("6");
        reveal_strlit("7");
        reveal_strlit("8");
        reveal_strlit("9");
    }
    if d == 0 { "0" }
    else if d == 1 { "1" }
    else if d == 2 { "2" }
    else if d == 3 { "3" }
    else if d == 4 { "4" }
    else if d == 5 { "5" }
    else if d == 6 { "6" }
    else if d == 7 { "7" }
    else if d == 8 { "8" }
    else { "9" }
}

/// Appends `n` in decimal.
fn append_decimal(out: &mut String, n: usize)
    ensures
        final(out)@ == old(out)@ + decimal(n as nat),
    decreases n,
{
    if n < 10 {
        out.append(digit_str(n));
    } else {
        append_decimal(out, n / 10);
        out.append(digit_str(n % 10));
        assert(old(out)@ + decimal(n as nat) =~= old(out)@ + decimal((n / 10) as nat) + seq![digit_char((n % 10) as nat)]);
    }
}

fn append_name(out: &mut String, descriptors: &Vec<TermDescriptor>, d: DescriptorId)
    ensures
        final(out)@ == old(out)@ + name_of(descriptors@, d),
{
    if d.0 < descriptors.len() {
        out.append(descriptors[d.0].name.as_str());
    } else {
        assert(old(out)@ + Seq::<char>::empty() =~= old(out)@);
    }
}

/// Appends the rendering of `view`.
pub fn render_view(out: &mut String, view: &InspectionView, descriptors: &Vec<TermDescriptor>)
    ensures
        final(out)@ == old(out)@ + render_tree(view.tree(), descriptors@),
    decreases view,
{
    proof {
        reveal_strlit("_");
        reveal_strlit("undefined");
        reveal_strlit("(");
        reveal_strlit(")");
        reveal_strlit(", ");
    }
    match view {
        InspectionView::UnboundVariable { index } => {
            out.append("_");
            append_decimal(out, *index);
            assert(out@ =~= old(out)@ + render_tree(view.tree(), descriptors@));
        },
        InspectionView::Undefined => {
            out.append("undefined");
        },
        InspectionView::Structure { descriptor_id, arguments } => {
            append_name(out, descriptors, *descriptor_id);
            let ghost t = view.tree();
            let ghost parts = rendered_arguments(t, descriptors@);
            assert(t matches TermTree::Node(d, args) && d == *descriptor_id && args.len() == arguments@.len());
            if arguments.len() > 0 {
                let ghost start = out@;
                out.append("(");
                let mut i: usize = 0;
                while i < arguments.len()
                    invariant
                        i <= arguments@.len(),
                        *view == (InspectionView::Structure { descriptor_id: *descriptor_id, arguments: *arguments }),
                        parts == rendered_arguments(t, descriptors@),
                        parts.len() == arguments@.len(),
                        forall|k: int| 0 <= k < arguments@.len() ==> #[trigger] parts[k] == render_tree(arguments@[k].tree(), descriptors@),
                        i == 0 ==> out@ == start + seq!['('],
                        i > 0 ==> out@ == start + seq!['('] + comma_join(parts.subrange(0, i as int)),
                    decreases arguments@.len() - i,
                {
                    proof {
                        reveal_strlit(", ");
                    }
                    let ghost before = out@;
                    if i > 0 {
                        out.append(", ");
                    }
                    let ghost mark = out@;
                    proof {
                        assert(decreases_to!(*view => view->Structure_arguments));
                        vstd::std_specs::vec::axiom_vec_index_decreases(*arguments, i as int);
                        assert(decreases_to!(*arguments => arguments@[i as int]));
                    }
                    render_view(out, &arguments[i], descriptors);
                    proof {
                        assert(out@ == mark + parts[i as int]);
                        if i > 0 {
                            assert(mark == before + seq![',', ' ']);
                        }
                        lemma_comma_join_prefix(parts, i as int);
                        if i == 0 {
                            assert(parts.subrange(0, 1).len() == 1);
                            assert(out@ =~= start + seq!['('] + comma_join(parts.subrange(0, 1)));
                        } else {
                            assert(out@ =~= start + seq!['('] + comma_join(parts.subrange(0, i + 1)));
                        }
                    }
                    i += 1;
                }
                out.append(")");
                assert(parts.subrange(0, arguments@.len() as int) =~= parts);
                assert(out@ =~= old(out)@ + render_tree(view.tree(), descriptors@));
            }
        },
    }
}

/// Renders one solution: `Name = value` for each variable of `result`.
pub fn render_inspection(result: &InspectionResult, descriptors: &Vec<TermDescriptor>) -> (r: String)
    ensures
        r@ == render_solution(result.variables@, descriptors@),
{
    proof {
        reveal_strlit(" = ");
        reveal_strlit(", ");
    }
    let ghost parts = solution_parts(result.variables@, descriptors@);
    let mut out = String::new();
    let mut i: usize = 0;
    while i < result.variables.len()
        invariant
            i <= result.variables@.len(),
            parts == solution_parts(result.variables@, descriptors@),
            i == 0 ==> out@ == Seq::<char>::empty(),
            i > 0 ==> out@ == comma_join(parts.subrange(0, i as int)),
        decreases result.variables@.len() - i,
    {
        proof {
            reveal_strlit(" = ");
            reveal_strlit(", ");
        }
        let ghost before = out@;
        if i > 0 {
            out.append(", ");
        }
        let ghost mark = out@;
        let (d, view) = &result.variables[i];
        append_name(&mut out, descriptors, *d);
        out.append(" = ");
        render_view(&mut out, view, descriptors);
        proof {
            assert(parts[i as int] == name_of(descriptors@, *d) + seq![' ', '=', ' '] + render_tree(view.tree(), descriptors@));
            assert(out@ =~= mark + parts[i as int]);
            if i > 0 {
                assert(mark == before + seq![',', ' ']);
            }
            lemma_comma_join_prefix(parts, i as int);
            if i == 0 {
                assert(out@ =~= comma_join(parts.subrange(0, 1)));
            } else {
                assert(out@ =~= comma_join(parts.subrange(0, i + 1)));
            }
        }
        i += 1;
    }
    proof {
        assert(parts.subrange(0, i as int) =~= parts);
        if i == 0 {
            assert(parts.len() == 0);
        }
    }
    out
}

/// A descriptor for display: `name/arity` for a functor, `name(var)` for a
/// variable.
pub open spec fn pretty_name_of(d: TermDescriptor) -> Seq<char> {
    match d.kind {
        DescriptorKind::Functor { arity } => d.name@ + seq!['/'] + decimal(arity as nat),
        DescriptorKind::Variable => d.name@ + seq!['(', 'v', 'a', 'r', ')'],
    }
}

impl TermDescriptor {
    pub fn pretty_name(&self) -> (r: String)
        ensures
            r@ == pretty_name_of(*self),
    {
        proof {
            reveal_strlit("/");
            reveal_strlit("(var)");
        }
        let mut out = String::new();
        out.append(self.name.as_str());
        match self.kind {
            DescriptorKind::Functor { arity } => {
                out.append("/");
                append_decimal(&mut out, arity);
            },
            DescriptorKind::Variable => {
                out.append("(var)");
            },
        }
        assert(out@ =~= pretty_name_of(*self));
        out
    }
}

} // verus!
