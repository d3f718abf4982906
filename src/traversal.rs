use vstd::prelude::*;
use crate::terms::AbstractTerm;

verus! {

broadcast use vstd::std_specs::vec::group_vec_axioms;

/// A node of a term as a traversal visits it: the subterm, its depth (the
/// root has depth zero), its position among its parent's arguments, and its
/// id, which is its index in pre-order (the root has id zero).
#[derive(Debug, Clone, Copy)]
pub struct AbstractTermItem<'a> {
    pub term: &'a AbstractTerm,
    pub level: usize,
    pub argument_index: usize,
    pub id: usize,
}

/// A node with the ids of its parent and of its arguments.
#[derive(Debug)]
pub struct TermNode<'a> {
    pub item: AbstractTermItem<'a>,
    pub parent: usize,
    pub children: Vec<usize>,
}

pub open spec fn term_children(t: AbstractTerm) -> Seq<AbstractTerm> {
    match t {
        AbstractTerm::Structure(_, args) => args@,
        _ => Seq::empty(),
    }
}

/// The nodes `from..` of a table are linked as a pre-order table: each
/// node's id is its index, its children are the nodes of its arguments, in
/// order, with larger ids, one level deeper.
pub open spec fn nodes_linked(nodes: Seq<TermNode>, from: int) -> bool {
    forall|j: int|
        from <= j < nodes.len() ==> {
            let n = #[trigger] nodes[j];
            &&& n.item.id == j
            &&& n.children@.len() == term_children(*n.item.term).len()
            &&& forall|k: int|
                0 <= k < n.children@.len() ==> {
                    let c = #[trigger] n.children@[k] as int;
                    &&& j < c < nodes.len()
                    &&& nodes[c].parent == j
                    &&& nodes[c].item.argument_index == k
                    &&& nodes[c].item.level == n.item.level + 1
                    &&& *nodes[c].item.term == term_children(*n.item.term)[k]
                }
        }
}

/// Every node `from+1..` hangs below an earlier node of the range: it is
/// the child of its parent at its argument index.
pub open spec fn nodes_rooted(nodes: Seq<TermNode>, from: int) -> bool {
    forall|j: int|
        from < j < nodes.len() ==> {
            let p = #[trigger] nodes[j].parent as int;
            &&& from <= p < j
            &&& nodes[j].item.argument_index < nodes[p].children@.len()
            &&& nodes[p].children@[nodes[j].item.argument_index as int] == j
        }
}

/// The arguments of node `j` are numbered in pre-order: the first comes
/// right after `j`, each later one after the one before it, and only nodes
/// below the earlier argument lie between two consecutive arguments.
pub open spec fn children_in_order(nodes: Seq<TermNode>, j: int) -> bool {
    let kids = nodes[j].children@;
    &&& kids.len() > 0 ==> kids[0] == j + 1
    &&& forall|k: int|
        0 <= k < kids.len() - 1 ==> kids[k] < #[trigger] kids[k + 1] && forall|q: int|
            kids[k] < q < kids[k + 1] ==> #[trigger] nodes[q].parent >= kids[k]
}

/// Every node `from..` has its arguments numbered in pre-order.
#[verifier::opaque]
pub open spec fn nodes_preordered(nodes: Seq<TermNode>, from: int) -> bool {
    forall|j: int| from <= j < nodes.len() ==> #[trigger] children_in_order(nodes, j)
}

/// While the arguments of node `id` are being added: `kids` so far are in
/// pre-order, and every node after the last lies below it.
#[verifier::opaque]
pub open spec fn kids_ordered(nodes: Seq<TermNode>, id: int, kids: Seq<usize>) -> bool {
    &&& kids.len() == 0 ==> nodes.len() == id + 1
    &&& kids.len() > 0 ==> kids[0] == id + 1
    &&& forall|k: int| 0 <= k < kids.len() ==> id < #[trigger] kids[k] < nodes.len()
    &&& kids.len() > 0 ==> forall|q: int| kids.last() < q < nodes.len() ==> #[trigger] nodes[q].parent >= kids.last()
    &&& forall|k: int|
        0 <= k < kids.len() - 1 ==> kids[k] < #[trigger] kids[k + 1] && forall|q: int|
            kids[k] < q < kids[k + 1] ==> #[trigger] nodes[q].parent >= kids[k]
}

proof fn lemma_kids_start(nodes: Seq<TermNode>, id: int)
    requires
        nodes.len() == id + 1,
        nodes[id].children@.len() == 0,
    ensures
        kids_ordered(nodes, id, Seq::empty()),
        nodes_preordered(nodes, id + 1),
        nodes_preordered(nodes, id),
{
    reveal(kids_ordered);
    reveal(nodes_preordered);
    assert(children_in_order(nodes, id));
}

/// Giving node `id` its arguments `kids` puts the range `id..` in pre-order.
proof fn lemma_kids_finish(before: Seq<TermNode>, after: Seq<TermNode>, id: int, kids: Seq<usize>)
    requires
        0 <= id < before.len(),
        kids_ordered(before, id, kids),
        nodes_preordered(before, id + 1),
        after.len() == before.len(),
        after[id].children@ == kids,
        forall|j: int| 0 <= j < before.len() && j != id ==> #[trigger] after[j] == before[j],
        nodes_linked(before, id + 1),
    ensures
        nodes_preordered(after, id),
{
    reveal(kids_ordered);
    reveal(nodes_preordered);
    assert forall|j: int| id <= j < after.len() implies #[trigger] children_in_order(after, j) by {
        if j == id {
            assert forall|k: int| 0 <= k < kids.len() - 1 implies kids[k] < #[trigger] kids[k + 1] && forall|q: int|
                kids[k] < q < kids[k + 1] ==> #[trigger] after[q].parent >= kids[k] by {
                assert(id < kids[k] && kids[k + 1] < before.len());
                assert forall|q: int| kids[k] < q < kids[k + 1] implies #[trigger] after[q].parent >= kids[k] by {
                    assert(after[q] == before[q]);
                }
            }
        } else {
            assert(children_in_order(before, j));
            assert(after[j] == before[j]);
            let ks = before[j].children@;
            assert forall|k: int| 0 <= k < ks.len() - 1 implies ks[k] < #[trigger] ks[k + 1] && forall|q: int|
                ks[k] < q < ks[k + 1] ==> #[trigger] after[q].parent >= ks[k] by {
                let c0 = before[j].children@[k];
                let c1 = before[j].children@[k + 1];
                assert(j < c0 && c1 < before.len());
                assert forall|q: int| ks[k] < q < ks[k + 1] implies #[trigger] after[q].parent >= ks[k] by {
                    assert(after[q] == before[q]);
                }
            }
        }
    }
}

/// Adding the subtree of argument `c` keeps the arguments in pre-order.
proof fn lemma_kids_extend(before: Seq<TermNode>, after: Seq<TermNode>, id: int, kids: Seq<usize>, c: int)
    requires
        kids_ordered(before, id, kids),
        0 <= id < c <= usize::MAX,
        c == before.len(),
        after.len() > c,
        forall|j: int| 0 <= j < c ==> #[trigger] after[j] == before[j],
        forall|j: int| c < j < after.len() ==> (#[trigger] after[j]).parent >= c,
        nodes_preordered(before, id + 1),
        nodes_preordered(after, c),
        nodes_linked(before, id + 1),
    ensures
        kids_ordered(after, id, kids.push(c as usize)),
        nodes_preordered(after, id + 1),
{
    reveal(kids_ordered);
    reveal(nodes_preordered);
    let nk = kids.push(c as usize);
    assert forall|k: int| 0 <= k < nk.len() - 1 implies nk[k] < #[trigger] nk[k + 1] && forall|q: int|
        nk[k] < q < nk[k + 1] ==> #[trigger] after[q].parent >= nk[k] by {
        if k < kids.len() - 1 {
            assert(nk[k] == kids[k] && nk[k + 1] == kids[k + 1]);
            assert forall|q: int| nk[k] < q < nk[k + 1] implies #[trigger] after[q].parent >= nk[k] by {
                assert(kids[k + 1] < before.len());
                assert(after[q] == before[q]);
            }
        } else {
            assert(nk[k] == kids.last());
            assert forall|q: int| nk[k] < q < nk[k + 1] implies #[trigger] after[q].parent >= nk[k] by {
                assert(after[q] == before[q]);
            }
        }
    }
    assert forall|q: int| nk.last() < q < after.len() implies #[trigger] after[q].parent >= nk.last() by {}
    assert forall|j: int| id + 1 <= j < after.len() implies #[trigger] children_in_order(after, j) by {
        if j < c {
            assert(children_in_order(before, j));
            assert(after[j] == before[j]);
            let ks = before[j].children@;
            assert forall|k: int| 0 <= k < ks.len() - 1 implies ks[k] < #[trigger] ks[k + 1] && forall|q: int|
                ks[k] < q < ks[k + 1] ==> #[trigger] after[q].parent >= ks[k] by {
                let cc = before[j].children@[k + 1];
                assert(cc < c);
                assert forall|q: int| ks[k] < q < ks[k + 1] implies #[trigger] after[q].parent >= ks[k] by {
                    assert(after[q] == before[q]);
                }
            }
        }
    }
}

/// Nodes in pre-order with their links; node zero is the root.
#[derive(Debug)]
pub struct TermTable<'a> {
    pub nodes: Vec<TermNode<'a>>,
}

impl<'a> TermTable<'a> {
    pub open spec fn wf(&self) -> bool {
        &&& self.nodes@.len() > 0
        &&& nodes_linked(self.nodes@, 0)
        &&& nodes_rooted(self.nodes@, 0)
        &&& nodes_preordered(self.nodes@, 0)
        &&& self.nodes@[0].item.level == 0
        &&& self.nodes@[0].item.argument_index == 0
        &&& forall|j: int| 0 <= j < self.nodes@.len() ==> (#[trigger] self.nodes@[j]).item.level < self.nodes@.len()
    }

    /// The table of all nodes of `root`.
    pub fn new(root: &'a AbstractTerm) -> (r: Self)
        ensures
            r.wf(),
            *r.nodes@[0].item.term == *root,
    {
        let mut nodes: Vec<TermNode<'a>> = Vec::new();
        let _ = add_nodes(root, 0, 0, 0, &mut nodes);
        TermTable { nodes }
    }

    /// Ids of the nodes of the subtree at `id`, children before parents.
    pub open spec fn post_order(&self, id: int) -> Seq<usize>
        decreases self.nodes@.len() - id, 1int,
    {
        if 0 <= id < self.nodes@.len() && nodes_linked(self.nodes@, 0) {
            self.child_orders(id).flatten().push(id as usize)
        } else {
            Seq::empty()
        }
    }

    /// The post-orders of the arguments of node `id`.
    pub open spec fn child_orders(&self, id: int) -> Seq<Seq<usize>>
        decreases self.nodes@.len() - id, 0int,
    {
        if 0 <= id < self.nodes@.len() {
            let kids = self.nodes@[id].children@;
            Seq::new(
                kids.len(),
                |k: int|
                    if 0 <= k < kids.len() && id < kids[k] < self.nodes@.len() {
                        self.post_order(kids[k] as int)
                    } else {
                        Seq::empty()
                    },
            )
        } else {
            Seq::empty()
        }
    }
}

/// While the arguments of node `id` are being added: every later node hangs
/// below node `id` (through `kids`, its children so far) or below a later
/// node.
pub open spec fn hung_below(nodes: Seq<TermNode>, id: int, kids: Seq<usize>) -> bool {
    forall|j: int|
        id < j < nodes.len() ==> {
            let p = #[trigger] nodes[j].parent as int;
            &&& id <= p < j
            &&& p == id ==> nodes[j].item.argument_index < kids.len() && kids[nodes[j].item.argument_index as int] == j
            &&& p > id ==> nodes[j].item.argument_index < nodes[p].children@.len()
                && nodes[p].children@[nodes[j].item.argument_index as int] == j
        }
}

#[verifier::rlimit(100)]
proof fn lemma_hung_below_child(before: Seq<TermNode>, after: Seq<TermNode>, id: int, kids: Seq<usize>, c: int)
    requires
        0 <= id < c <= usize::MAX,
        hung_below(before, id, kids),
        c == before.len(),
        after.len() > c,
        forall|j: int| 0 <= j < c ==> #[trigger] after[j] == before[j],
        nodes_rooted(after, c),
        after[c].parent == id,
        after[c].item.argument_index == kids.len(),
        forall|j: int| c < j < after.len() ==> (#[trigger] after[j]).parent >= c,
    ensures
        hung_below(after, id, kids.push(c as usize)),
{
    assert forall|j: int| id < j < after.len() implies {
        let p = #[trigger] after[j].parent as int;
        &&& id <= p < j
        &&& p == id ==> after[j].item.argument_index < kids.push(c as usize).len() && kids.push(c as usize)[after[j].item.argument_index as int] == j
        &&& p > id ==> after[j].item.argument_index < after[p].children@.len()
            && after[p].children@[after[j].item.argument_index as int] == j
    } by {
        let p = after[j].parent as int;
        let k = after[j].item.argument_index as int;
        if j < c {
            assert(after[j] == before[j]);
            if p > id {
                assert(after[p] == before[p]);
            } else {
                assert(kids.push(c as usize)[k] == kids[k]);
            }
        } else if j > c {
            assert(c <= p < j);
            assert(after[p].children@[k] == j);
        } else {
            assert(kids.push(c as usize)[k] == c);
        }
    }
}

/// Appends the nodes of `t` in pre-order, `t` first, and returns its id.
#[verifier::rlimit(100)]
fn add_nodes<'a>(
    t: &'a AbstractTerm,
    level: usize,
    argument_index: usize,
    parent: usize,
    nodes: &mut Vec<TermNode<'a>>,
) -> (id: usize)
    requires
        nodes_linked(old(nodes)@, 0) || level > 0,
        level <= old(nodes)@.len(),
        forall|j: int| 0 <= j < old(nodes)@.len() ==> (#[trigger] old(nodes)@[j]).item.level < old(nodes)@.len(),
    ensures
        id == old(nodes)@.len(),
        final(nodes)@.len() > id,
        forall|j: int| 0 <= j < old(nodes)@.len() ==> #[trigger] final(nodes)@[j] == old(nodes)@[j],
        nodes_linked(final(nodes)@, id as int),
        nodes_rooted(final(nodes)@, id as int),
        nodes_preordered(final(nodes)@, id as int),
        *final(nodes)@[id as int].item.term == *t,
        final(nodes)@[id as int].item.level == level,
        final(nodes)@[id as int].item.argument_index == argument_index,
        final(nodes)@[id as int].parent == parent,
        forall|j: int| id < j < final(nodes)@.len() ==> (#[trigger] final(nodes)@[j]).parent >= id,
        forall|j: int| 0 <= j < final(nodes)@.len() ==> (#[trigger] final(nodes)@[j]).item.level < final(nodes)@.len(),
    decreases t,
{
    let id = nodes.len();
    let item = AbstractTermItem { term: t, level, argument_index, id };
    nodes.push(TermNode { item, parent, children: Vec::new() });
    proof { lemma_kids_start(nodes@, id as int); }
    if let AbstractTerm::Structure(_, args) = t {
        let mut kids: Vec<usize> = Vec::new();
        let mut i: usize = 0;
        while i < args.len()
            invariant
                id < nodes@.len(),
                i <= args@.len(),
                kids@.len() == i,
                level < nodes@.len(),
                nodes@[id as int].item == item,
                nodes@[id as int].parent == parent,
                nodes@[id as int].children@.len() == 0,
                term_children(*t) == args@,
                forall|j: int| 0 <= j < id ==> #[trigger] nodes@[j] == old(nodes)@[j],
                nodes_linked(nodes@, id + 1),
                forall|j: int| id < j < nodes@.len() ==> (#[trigger] nodes@[j]).parent >= id,
                hung_below(nodes@, id as int, kids@),
                kids_ordered(nodes@, id as int, kids@),
                nodes_preordered(nodes@, id + 1),
                forall|j: int| 0 <= j < nodes@.len() ==> (#[trigger] nodes@[j]).item.level < nodes@.len(),
                forall|k: int|
                    0 <= k < i ==> {
                        let c = #[trigger] kids@[k] as int;
                        &&& id < c < nodes@.len()
                        &&& nodes@[c].parent == id
                        &&& nodes@[c].item.argument_index == k
                        &&& nodes@[c].item.level == level + 1
                        &&& *nodes@[c].item.term == args@[k]
                    },
            decreases args@.len() - i,
        {
            let ghost before = nodes@;
            let current_len = nodes.len();
            assert(level + 1 <= current_len);
            let c = add_nodes(&args[i], level + 1, i, id, nodes);
            proof {
                lemma_hung_below_child(before, nodes@, id as int, kids@, c as int);
                lemma_kids_extend(before, nodes@, id as int, kids@, c as int);
            }
            assert forall|k: int| 0 <= k < i implies {
                let c2 = #[trigger] kids@[k] as int;
                &&& id < c2 < nodes@.len()
                &&& nodes@[c2].parent == id
                &&& nodes@[c2].item.argument_index == k
                &&& nodes@[c2].item.level == level + 1
                &&& *nodes@[c2].item.term == args@[k]
            } by {
                assert(nodes@[kids@[k] as int] == before[kids@[k] as int]);
            }
            kids.push(c);
            i += 1;
        }
        let node = TermNode { item, parent, children: kids };
        let ghost before_set = nodes@;
        nodes.set(id, node);
        proof { lemma_kids_finish(before_set, nodes@, id as int, kids@); }
        assert(nodes_rooted(nodes@, id as int)) by {
            assert forall|j: int| id < j < nodes@.len() implies {
                let p = #[trigger] nodes@[j].parent as int;
                &&& id <= p < j
                &&& nodes@[j].item.argument_index < nodes@[p].children@.len()
                &&& nodes@[p].children@[nodes@[j].item.argument_index as int] == j
            } by {
                assert(nodes@[j] == before_set[j]);
                let p = nodes@[j].parent as int;
                if p > id {
                    assert(nodes@[p] == before_set[p]);
                }
            }
        }
        assert(nodes_linked(nodes@, id as int)) by {
            assert forall|j: int| id <= j < nodes@.len() implies {
                let n = #[trigger] nodes@[j];
                &&& n.item.id == j
                &&& n.children@.len() == term_children(*n.item.term).len()
                &&& forall|k: int|
                    0 <= k < n.children@.len() ==> {
                        let c = #[trigger] n.children@[k] as int;
                        &&& j < c < nodes@.len()
                        &&& nodes@[c].parent == j
                        &&& nodes@[c].item.argument_index == k
                        &&& nodes@[c].item.level == n.item.level + 1
                        &&& *nodes@[c].item.term == term_children(*n.item.term)[k]
                    }
            } by {
                if j > id {
                    let n = nodes@[j];
                    assert forall|k: int| 0 <= k < n.children@.len() implies {
                        let c = #[trigger] n.children@[k] as int;
                        &&& j < c < nodes@.len()
                        &&& nodes@[c].parent == j
                        &&& nodes@[c].item.argument_index == k
                        &&& nodes@[c].item.level == n.item.level + 1
                        &&& *nodes@[c].item.term == term_children(*n.item.term)[k]
                    } by {
                        let c = n.children@[k] as int;
                        assert(c != id);
                    }
                }
            }
        }
    }
    id
}

/// Ids of the nodes at depth `level` among the first `upto`, in id order.
pub open spec fn level_ids(nodes: Seq<TermNode>, level: usize, upto: int) -> Seq<usize>
    decreases upto,
{
    if upto <= 0 || upto > nodes.len() {
        Seq::empty()
    } else if nodes[upto - 1].item.level == level {
        level_ids(nodes, level, upto - 1).push((upto - 1) as usize)
    } else {
        level_ids(nodes, level, upto - 1)
    }
}

/// Ids of the nodes at depths `from..to`, level by level: breadth-first
/// order.
pub open spec fn breadth_first_ids(nodes: Seq<TermNode>, from: usize, to: int) -> Seq<usize>
    decreases to - from,
{
    if to <= from {
        Seq::empty()
    } else {
        breadth_first_ids(nodes, from, to - 1) + level_ids(nodes, (to - 1) as usize, nodes.len() as int)
    }
}

/// Whether the root is left out of a traversal: it is when it is a
/// structure, whose arguments the traversal yields instead.
pub open spec fn skips_root(table: TermTable) -> bool {
    table.nodes@[0].item.term is Structure
}

pub open spec fn first_level(table: TermTable) -> usize {
    if skips_root(table) { 1 } else { 0 }
}

/// The ids a fact-order (breadth-first) traversal yields.
pub open spec fn fact_order(table: TermTable) -> Seq<usize> {
    breadth_first_ids(table.nodes@, first_level(table), table.nodes@.len() as int)
}

/// The ids a query-order (post-order) traversal yields.
pub open spec fn query_order(table: TermTable) -> Seq<usize> {
    let all = table.post_order(0);
    if skips_root(table) { all.drop_last() } else { all }
}

/// The ids a depth-first (pre-order) traversal yields.
pub open spec fn depth_first_order(table: TermTable) -> Seq<usize> {
    let s = first_level(table) as int;
    Seq::new((table.nodes@.len() - s) as nat, |i: int| (i + s) as usize)
}

pub open spec fn items_of(table: TermTable, ids: Seq<usize>) -> Seq<AbstractTermItem> {
    Seq::new(ids.len(), |i: int| table.nodes@[ids[i] as int].item)
}

impl<'a> TermTable<'a> {
    fn level_into(&self, level: usize, out: &mut Vec<usize>)
        requires
            self.wf(),
        ensures
            final(out)@ == old(out)@ + level_ids(self.nodes@, level, self.nodes@.len() as int),
    {
        let mut j: usize = 0;
        while j < self.nodes.len()
            invariant
                j <= self.nodes@.len(),
                out@ == old(out)@ + level_ids(self.nodes@, level, j as int),
            decreases self.nodes@.len() - j,
        {
            if self.nodes[j].item.level == level {
                out.push(j);
            }
            j += 1;
            assert(out@ =~= old(out)@ + level_ids(self.nodes@, level, j as int));
        }
    }

    /// Node ids in fact order.
    pub fn fact_order(&self) -> (r: Vec<usize>)
        requires
            self.wf(),
        ensures
            r@ == fact_order(*self),
    {
        let mut out: Vec<usize> = Vec::new();
        let first: usize = match self.nodes[0].item.term {
            AbstractTerm::Structure(..) => 1,
            _ => 0,
        };
        let mut level: usize = first;
        assert(out@ =~= breadth_first_ids(self.nodes@, first, first as int));
        while level < self.nodes.len()
            invariant
                self.wf(),
                first == first_level(*self),
                first <= level <= self.nodes@.len() || (level == first && first > self.nodes@.len()),
                out@ == breadth_first_ids(self.nodes@, first, level as int),
            decreases self.nodes@.len() - level,
        {
            self.level_into(level, &mut out);
            level += 1;
        }
        out
    }

    fn post_order_into(&self, id: usize, out: &mut Vec<usize>)
        requires
            self.wf(),
            id < self.nodes@.len(),
        ensures
            final(out)@ == old(out)@ + self.post_order(id as int),
        decreases self.nodes@.len() - id,
    {
        let kids = &self.nodes[id].children;
        let ghost parts = self.child_orders(id as int);
        let mut k: usize = 0;
        while k < kids.len()
            invariant
                self.wf(),
                id < self.nodes@.len(),
                kids@ == self.nodes@[id as int].children@,
                parts == self.child_orders(id as int),
                parts.len() == kids@.len(),
                k <= kids@.len(),
                out@ == old(out)@ + parts.subrange(0, k as int).flatten(),
            decreases kids@.len() - k,
        {
            let c = kids[k];
            assert(id < c < self.nodes@.len());
            self.post_order_into(c, out);
            assert(parts[k as int] == self.post_order(c as int));
            assert(parts.subrange(0, k + 1) =~= parts.subrange(0, k as int).push(parts[k as int]));
            proof { parts.subrange(0, k as int).lemma_flatten_push(parts[k as int]); }
            k += 1;
        }
        assert(parts.subrange(0, k as int) =~= parts);
        out.push(id);
        assert(out@ =~= old(out)@ + self.post_order(id as int));
    }

    /// Node ids in query order.
    pub fn query_order(&self) -> (r: Vec<usize>)
        requires
            self.wf(),
        ensures
            r@ == query_order(*self),
    {
        let mut out: Vec<usize> = Vec::new();
        self.post_order_into(0, &mut out);
        assert(out@ =~= self.post_order(0));
        if let AbstractTerm::Structure(..) = self.nodes[0].item.term {
            out.pop();
        }
        out
    }

    /// Node ids in depth-first order.
    pub fn depth_first_order(&self) -> (r: Vec<usize>)
        requires
            self.wf(),
        ensures
            r@ == depth_first_order(*self),
    {
        let mut out: Vec<usize> = Vec::new();
        let first: usize = match self.nodes[0].item.term {
            AbstractTerm::Structure(..) => 1,
            _ => 0,
        };
        let mut j: usize = first;
        while j < self.nodes.len()
            invariant
                first == first_level(*self),
                first <= j,
                j <= self.nodes@.len() || j == first,
                out@ == Seq::new((j - first) as nat, |i: int| (i + first) as usize),
            decreases self.nodes@.len() - j,
        {
            out.push(j);
            j += 1;
            assert(out@ =~= Seq::new((j - first) as nat, |i: int| (i + first) as usize));
        }
        assert(out@ =~= depth_first_order(*self));
        out
    }

    /// The items with the given ids, in the given order.
    pub fn items(&self, ids: &Vec<usize>) -> (r: Vec<AbstractTermItem<'a>>)
        requires
            forall|i: int| 0 <= i < ids@.len() ==> (#[trigger] ids@[i]) < self.nodes@.len(),
        ensures
            r@ == items_of(*self, ids@),
    {
        let mut out: Vec<AbstractTermItem<'a>> = Vec::new();
        let mut i: usize = 0;
        while i < ids.len()
            invariant
                i <= ids@.len(),
                forall|k: int| 0 <= k < ids@.len() ==> (#[trigger] ids@[k]) < self.nodes@.len(),
                out@ == items_of(*self, ids@.subrange(0, i as int)),
            decreases ids@.len() - i,
        {
            out.push(self.nodes[ids[i]].item);
            i += 1;
            assert(out@ =~= items_of(*self, ids@.subrange(0, i as int)));
        }
        assert(ids@.subrange(0, i as int) =~= ids@);
        out
    }
}

/// The items of a term in fact order (breadth-first), handed out one at a time.
pub struct FactIterator<'a> {
    pub items: Vec<AbstractTermItem<'a>>,
    pub position: usize,
}

impl<'a> FactIterator<'a> {
    pub fn new(root: &'a AbstractTerm) -> (r: Self)
        ensures
            r.position == 0,
            exists|t: TermTable<'a>|
                t.wf() && *t.nodes@[0].item.term == *root && r.items@ == items_of(t, fact_order(t)),
    {
        let table = TermTable::new(root);
        let ids = table.fact_order();
        proof {
            assert forall|i: int| 0 <= i < ids@.len() implies (#[trigger] ids@[i]) < table.nodes@.len() by {
                lemma_fact_order_in_range(table, i);
            }
        }
        let items = table.items(&ids);
        FactIterator { items, position: 0 }
    }

    /// The next item, if any is left.
    pub fn next(&mut self) -> (r: Option<AbstractTermItem<'a>>)
        ensures
            final(self).items@ == old(self).items@,
            old(self).position < old(self).items@.len() ==> r == Some(old(self).items@[old(self).position as int])
                && final(self).position == old(self).position + 1,
            old(self).position >= old(self).items@.len() ==> r is None && final(self).position == old(self).position,
    {
        if self.position < self.items.len() {
            let item = self.items[self.position];
            self.position += 1;
            Some(item)
        } else {
            None
        }
    }
}

/// The items of a term in query order (post-order), handed out one at a time.
pub struct QueryIterator<'a> {
    pub items: Vec<AbstractTermItem<'a>>,
    pub position: usize,
}

impl<'a> QueryIterator<'a> {
    pub fn new(root: &'a AbstractTerm) -> (r: Self)
        ensures
            r.position == 0,
            exists|t: TermTable<'a>|
                t.wf() && *t.nodes@[0].item.term == *root && r.items@ == items_of(t, query_order(t)),
    {
        let table = TermTable::new(root);
        let ids = table.query_order();
        proof {
            assert forall|i: int| 0 <= i < ids@.len() implies (#[trigger] ids@[i]) < table.nodes@.len() by {
                lemma_query_order_in_range(table, i);
            }
        }
        let items = table.items(&ids);
        QueryIterator { items, position: 0 }
    }

    /// The next item, if any is left.
    pub fn next(&mut self) -> (r: Option<AbstractTermItem<'a>>)
        ensures
            final(self).items@ == old(self).items@,
            old(self).position < old(self).items@.len() ==> r == Some(old(self).items@[old(self).position as int])
                && final(self).position == old(self).position + 1,
            old(self).position >= old(self).items@.len() ==> r is None && final(self).position == old(self).position,
    {
        if self.position < self.items.len() {
            let item = self.items[self.position];
            self.position += 1;
            Some(item)
        } else {
            None
        }
    }
}

/// The items of a term in depth-first order (pre-order), handed out one at a time.
pub struct DepthFirstIterator<'a> {
    pub items: Vec<AbstractTermItem<'a>>,
    pub position: usize,
}

impl<'a> DepthFirstIterator<'a> {
    pub fn new(root: &'a AbstractTerm) -> (r: Self)
        ensures
            r.position == 0,
            exists|t: TermTable<'a>|
                t.wf() && *t.nodes@[0].item.term == *root && r.items@ == items_of(t, depth_first_order(t)),
    {
        let table = TermTable::new(root);
        let ids = table.depth_first_order();
        proof {
            assert forall|i: int| 0 <= i < ids@.len() implies (#[trigger] ids@[i]) < table.nodes@.len() by {
                lemma_depth_first_order_in_range(table, i);
            }
        }
        let items = table.items(&ids);
        DepthFirstIterator { items, position: 0 }
    }

    /// The next item, if any is left.
    pub fn next(&mut self) -> (r: Option<AbstractTermItem<'a>>)
        ensures
            final(self).items@ == old(self).items@,
            old(self).position < old(self).items@.len() ==> r == Some(old(self).items@[old(self).position as int])
                && final(self).position == old(self).position + 1,
            old(self).position >= old(self).items@.len() ==> r is None && final(self).position == old(self).position,
    {
        if self.position < self.items.len() {
            let item = self.items[self.position];
            self.position += 1;
            Some(item)
        } else {
            None
        }
    }
}

pub proof fn lemma_level_ids_in_range(nodes: Seq<TermNode>, level: usize, upto: int, i: int)
    requires
        0 <= i < level_ids(nodes, level, upto).len(),
    ensures
        level_ids(nodes, level, upto)[i] < nodes.len(),
    decreases upto,
{
    if upto <= 0 || upto > nodes.len() {
    } else if nodes[upto - 1].item.level == level {
        if i < level_ids(nodes, level, upto - 1).len() {
            lemma_level_ids_in_range(nodes, level, upto - 1, i);
        }
    } else {
        lemma_level_ids_in_range(nodes, level, upto - 1, i);
    }
}

pub proof fn lemma_breadth_first_in_range(nodes: Seq<TermNode>, from: usize, to: int, i: int)
    requires
        0 <= i < breadth_first_ids(nodes, from, to).len(),
    ensures
        breadth_first_ids(nodes, from, to)[i] < nodes.len(),
    decreases to - from,
{
    if to > from {
        let a = breadth_first_ids(nodes, from, to - 1);
        if i < a.len() {
            lemma_breadth_first_in_range(nodes, from, to - 1, i);
        } else {
            lemma_level_ids_in_range(nodes, (to - 1) as usize, nodes.len() as int, i - a.len());
        }
    }
}

pub proof fn lemma_fact_order_in_range(t: TermTable, i: int)
    requires
        t.wf(),
        0 <= i < fact_order(t).len(),
    ensures
        fact_order(t)[i] < t.nodes@.len(),
{
    lemma_breadth_first_in_range(t.nodes@, first_level(t), t.nodes@.len() as int, i);
}

pub proof fn lemma_flatten_bounded(parts: Seq<Seq<usize>>, bound: int)
    requires
        forall|k: int, j: int| 0 <= k < parts.len() && 0 <= j < parts[k].len() ==> #[trigger] parts[k][j] < bound,
    ensures
        forall|i: int| 0 <= i < parts.flatten().len() ==> #[trigger] parts.flatten()[i] < bound,
    decreases parts.len(),
{
    if parts.len() > 0 {
        let rest = parts.drop_first();
        assert forall|k: int, j: int| 0 <= k < rest.len() && 0 <= j < rest[k].len() implies #[trigger] rest[k][j] < bound by {
            assert(rest[k] == parts[k + 1]);
        }
        lemma_flatten_bounded(rest, bound);
        assert forall|i: int| 0 <= i < parts.flatten().len() implies #[trigger] parts.flatten()[i] < bound by {
            if i < parts[0].len() {
                assert(parts.flatten()[i] == parts[0][i]);
            } else {
                assert(parts.flatten()[i] == rest.flatten()[i - parts[0].len()]);
            }
        }
    }
}

pub proof fn lemma_post_order_in_range(t: TermTable, id: int)
    requires
        t.wf(),
    ensures
        forall|i: int| 0 <= i < t.post_order(id).len() ==> #[trigger] t.post_order(id)[i] < t.nodes@.len(),
    decreases t.nodes@.len() - id,
{
    if 0 <= id < t.nodes@.len() {
        let parts = t.child_orders(id);
        let kids = t.nodes@[id].children@;
        assert forall|k: int, j: int| 0 <= k < parts.len() && 0 <= j < parts[k].len() implies #[trigger] parts[k][j]
            < t.nodes@.len() by {
            let n = t.nodes@[id];
            let c = n.children@[k] as int;
            assert(id < c < t.nodes@.len());
            assert(parts[k] == t.post_order(c));
            lemma_post_order_in_range(t, c);
        }
        lemma_flatten_bounded(parts, t.nodes@.len() as int);
    }
}

pub proof fn lemma_query_order_in_range(t: TermTable, i: int)
    requires
        t.wf(),
        0 <= i < query_order(t).len(),
    ensures
        query_order(t)[i] < t.nodes@.len(),
{
    lemma_post_order_in_range(t, 0);
}

pub proof fn lemma_depth_first_order_in_range(t: TermTable, i: int)
    requires
        t.wf(),
        0 <= i < depth_first_order(t).len(),
    ensures
        depth_first_order(t)[i] < t.nodes@.len(),
{
}

} // verus!
