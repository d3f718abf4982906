use vstd::prelude::*;
use crate::terms::{AbstractRule, AbstractTerm};
use crate::traversal::{term_children, TermTable};

verus! {

broadcast use vstd::std_specs::vec::group_vec_axioms;

/// Whether a variable of this name occurs in `t`.
pub open spec fn occurs(t: AbstractTerm, name: Seq<char>) -> bool
    decreases t,
{
    match t {
        AbstractTerm::Variable(n) => n@ == name,
        AbstractTerm::Constant(_) => false,
        AbstractTerm::Structure(_, args) => exists|i: int| 0 <= i < args@.len() && occurs(#[trigger] args@[i], name),
    }
}

/// What occurs in a node occurs in the root.
pub proof fn lemma_node_occurs_in_root(t: TermTable, j: int, name: Seq<char>)
    requires
        t.wf(),
        0 <= j < t.nodes@.len(),
        occurs(*t.nodes@[j].item.term, name),
    ensures
        occurs(*t.nodes@[0].item.term, name),
    decreases j,
{
    if j > 0 {
        let p = t.nodes@[j].parent as int;
        let k = t.nodes@[j].item.argument_index as int;
        assert(0 <= p < j);
        let pn = t.nodes@[p];
        assert(pn.children@[k] == j);
        assert(*t.nodes@[j].item.term == term_children(*pn.item.term)[k]);
        match *pn.item.term {
            AbstractTerm::Structure(_, args) => {
                assert(args@[k] == *t.nodes@[j].item.term);
            },
            _ => {},
        }
        lemma_node_occurs_in_root(t, p, name);
    }
}

/// A variable that occurs in a node's term is the term of a node.
pub proof fn lemma_occurs_has_node(t: TermTable, j: int, name: Seq<char>)
    requires
        t.wf(),
        0 <= j < t.nodes@.len(),
        occurs(*t.nodes@[j].item.term, name),
    ensures
        exists|k: int| 0 <= k < t.nodes@.len() && (#[trigger] t.nodes@[k]).item.term is Variable
            && t.nodes@[k].item.term.spec_name() == name,
    decreases *t.nodes@[j].item.term,
{
    let n = t.nodes@[j];
    match *n.item.term {
        AbstractTerm::Variable(v) => {
            assert(t.nodes@[j].item.term.spec_name() == name);
        },
        AbstractTerm::Constant(_) => {},
        AbstractTerm::Structure(_, args) => {
            let i = choose|i: int| 0 <= i < args@.len() && occurs(#[trigger] args@[i], name);
            let c = n.children@[i] as int;
            assert(*t.nodes@[c].item.term == args@[i]);
            assert(decreases_to!(*n.item.term => args@[i]));
            lemma_occurs_has_node(t, c, name);
        },
    }
}

/// Term `k` of a rule: the head, then the goals.
pub open spec fn rule_term(rule: AbstractRule, k: int) -> AbstractTerm {
    if k == 0 {
        rule.head
    } else {
        rule.goals@[k - 1]
    }
}

/// The chunk of term `k`: the head and the first goal form chunk zero, and
/// goal `i` (from zero) is chunk `i`.
pub open spec fn chunk_of(k: int) -> int {
    if k == 0 {
        0
    } else {
        k - 1
    }
}

/// Among the first `k` terms of the rule, variable `name` occurs in chunk `c`.
pub open spec fn occurs_in_chunk_before(rule: AbstractRule, k: int, c: int, name: Seq<char>) -> bool {
    exists|t: int| 0 <= t < k && chunk_of(t) == c && #[trigger] occurs(rule_term(rule, t), name)
}

pub open spec fn occurs_in_chunk(rule: AbstractRule, c: int, name: Seq<char>) -> bool {
    occurs_in_chunk_before(rule, rule.goals@.len() + 1int, c, name)
}

/// A variable is permanent in a rule when it occurs in two chunks.
pub open spec fn is_permanent(rule: AbstractRule, name: Seq<char>) -> bool {
    exists|c1: int, c2: int| c1 != c2 && #[trigger] occurs_in_chunk(rule, c1, name) && #[trigger] occurs_in_chunk(rule, c2, name)
}

pub proof fn lemma_occurs_before_step(rule: AbstractRule, k: int, c: int, name: Seq<char>)
    requires
        0 <= k,
    ensures
        occurs_in_chunk_before(rule, k + 1, c, name) <==> (occurs_in_chunk_before(rule, k, c, name) || (chunk_of(k) == c
            && occurs(rule_term(rule, k), name))),
{
    if occurs_in_chunk_before(rule, k + 1, c, name) {
        let t = choose|t: int| 0 <= t < k + 1 && chunk_of(t) == c && #[trigger] occurs(rule_term(rule, t), name);
        if t < k {
            assert(occurs_in_chunk_before(rule, k, c, name));
        }
    }
    if occurs_in_chunk_before(rule, k, c, name) {
        let t = choose|t: int| 0 <= t < k && chunk_of(t) == c && #[trigger] occurs(rule_term(rule, t), name);
        assert(0 <= t < k + 1);
    }
    if chunk_of(k) == c && occurs(rule_term(rule, k), name) {
        assert(0 <= k < k + 1);
    }
}

} // verus!
