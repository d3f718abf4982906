use vstd::prelude::*;
use crate::instructions::DescriptorId;
use crate::terms::AbstractTerm;

verus! {

/// What a descriptor stands for: a functor of some arity (a constant has
/// arity zero) or a variable.
#[derive(Debug, Clone, Copy, PartialEq, Eq, Structural)]
pub enum DescriptorKind {
    Functor { arity: usize },
    Variable,
}

/// An interned name together with its kind.
#[derive(Debug, Clone)]
pub struct TermDescriptor {
    pub name: String,
    pub kind: DescriptorKind,
}

/// The interning key of a term: `(name, arity)` for functors and constants,
/// the name alone for variables.
#[derive(Debug, Clone)]
pub enum DescriptorIdentifier {
    Functor { name: String, arity: usize },
    Named { name: String },
}

/// Interning key as a value: the name, and the arity or `-1` for a variable.
pub open spec fn kind_key(kind: DescriptorKind) -> int {
    match kind {
        DescriptorKind::Functor { arity } => arity as int,
        DescriptorKind::Variable => -1,
    }
}

pub open spec fn term_key(t: AbstractTerm) -> (Seq<char>, int) {
    match t {
        AbstractTerm::Variable(name) => (name@, -1),
        AbstractTerm::Constant(name) => (name@, 0),
        AbstractTerm::Structure(name, args) => (name@, args.len() as int),
    }
}

impl TermDescriptor {
    pub open spec fn key(&self) -> (Seq<char>, int) {
        (self.name@, kind_key(self.kind))
    }

    pub open spec fn spec_arity(&self) -> usize {
        match self.kind {
            DescriptorKind::Functor { arity } => arity,
            DescriptorKind::Variable => 0,
        }
    }

    pub fn new(name: String, kind: DescriptorKind) -> (r: Self)
        ensures
            r.name@ == name@,
            r.kind == kind,
    {
        TermDescriptor { name, kind }
    }

    /// Number of arguments of a functor; zero for a variable.
    pub fn arity(&self) -> (r: usize)
        ensures
            r == self.spec_arity(),
    {
        match &self.kind {
            DescriptorKind::Functor { arity } => *arity,
            DescriptorKind::Variable => 0,
        }
    }
}

impl DescriptorIdentifier {
    pub open spec fn key(&self) -> (Seq<char>, int) {
        match self {
            DescriptorIdentifier::Functor { name, arity } => (name@, *arity as int),
            DescriptorIdentifier::Named { name } => (name@, -1),
        }
    }

    /// The interning key of a term.
    pub fn from_term(term: &AbstractTerm) -> (r: Self)
        ensures
            r.key() == term_key(*term),
    {
        match term {
            AbstractTerm::Structure(name, sub_terms) => DescriptorIdentifier::Functor {
                name: name.clone(),
                arity: sub_terms.len(),
            },
            AbstractTerm::Variable(name) => DescriptorIdentifier::Named { name: name.clone() },
            AbstractTerm::Constant(name) => DescriptorIdentifier::Functor { name: name.clone(), arity: 0 },
        }
    }
}

/// The descriptor table: descriptors are appended, never changed, and no two
/// of them share a key.
#[derive(Debug)]
pub struct DescriptorAllocator {
    pub descriptors: Vec<TermDescriptor>,
}

impl DescriptorAllocator {
    pub open spec fn wf(&self) -> bool {
        forall|i: int, j: int|
            0 <= i < j < self.descriptors@.len() ==> #[trigger] self.descriptors@[i].key()
                != #[trigger] self.descriptors@[j].key()
    }

    /// The id under which a key is interned, if it is.
    pub open spec fn lookup(&self, key: (Seq<char>, int)) -> Option<usize> {
        if exists|i: int| 0 <= i < self.descriptors@.len() && self.descriptors@[i].key() == key {
            Some((choose|i: int| 0 <= i < self.descriptors@.len() && self.descriptors@[i].key() == key) as usize)
        } else {
            None
        }
    }

    pub fn new() -> (r: Self)
        ensures
            r.wf(),
            r.descriptors@.len() == 0,
    {
        DescriptorAllocator { descriptors: Vec::new() }
    }

    /// A copy of the table's descriptors.
    pub fn copy_descriptors(&self) -> (r: Vec<TermDescriptor>)
        ensures
            r@ == self.descriptors@,
    {
        let mut out: Vec<TermDescriptor> = Vec::new();
        let mut i: usize = 0;
        while i < self.descriptors.len()
            invariant
                i <= self.descriptors@.len(),
                out@ == self.descriptors@.subrange(0, i as int),
            decreases self.descriptors@.len() - i,
        {
            let d = &self.descriptors[i];
            out.push(TermDescriptor { name: d.name.clone(), kind: d.kind });
            i += 1;
            assert(out@ =~= self.descriptors@.subrange(0, i as int));
        }
        assert(self.descriptors@.subrange(0, i as int) =~= self.descriptors@);
        out
    }

    /// The descriptor interned under `id`.
    pub fn get(&self, id: DescriptorId) -> (r: &TermDescriptor)
        requires
            id.0 < self.descriptors@.len(),
        ensures
            *r == self.descriptors@[id.0 as int],
    {
        &self.descriptors[id.0]
    }

    /// Interns the key of `term`: returns the id it already has, or appends a
    /// descriptor for it and returns the new id.
    pub fn get_or_set(&mut self, term: &AbstractTerm) -> (r: DescriptorId)
        requires
            old(self).wf(),
        ensures
            final(self).wf(),
            r.0 < final(self).descriptors@.len(),
            final(self).descriptors@[r.0 as int].key() == term_key(*term),
            old(self).descriptors@.len() <= final(self).descriptors@.len(),
            forall|i: int| 0 <= i < old(self).descriptors@.len()
                ==> final(self).descriptors@[i] == #[trigger] old(self).descriptors@[i],
            old(self).lookup(term_key(*term)) is Some ==> final(self).descriptors@ == old(self).descriptors@,
            old(self).lookup(term_key(*term)) is None ==> final(self).descriptors@.len() == old(self).descriptors@.len() + 1,
            term is Variable ==> final(self).descriptors@[r.0 as int].kind == DescriptorKind::Variable,
    {
        let (name, kind) = match term {
            AbstractTerm::Structure(name, sub_terms) => (name, DescriptorKind::Functor { arity: sub_terms.len() }),
            AbstractTerm::Constant(name) => (name, DescriptorKind::Functor { arity: 0 }),
            AbstractTerm::Variable(name) => (name, DescriptorKind::Variable),
        };
        assert((name@, kind_key(kind)) == term_key(*term));
        let mut i: usize = 0;
        while i < self.descriptors.len()
            invariant
                i <= self.descriptors@.len(),
                self.wf(),
                (name@, kind_key(kind)) == term_key(*term),
                term is Variable ==> kind == DescriptorKind::Variable,
                forall|j: int| 0 <= j < i ==> #[trigger] self.descriptors@[j].key() != (name@, kind_key(kind)),
            decreases self.descriptors@.len() - i,
        {
            let d = &self.descriptors[i];
            if d.kind == kind && d.name == *name {
                assert(self.descriptors@[i as int].key() == term_key(*term));
                proof {
                    let k = choose|k: int| 0 <= k < self.descriptors@.len() && self.descriptors@[k].key() == term_key(*term);
                    if k != i as int {
                        assert(self.descriptors@[k].key() == self.descriptors@[i as int].key());
                    }
                }
                return DescriptorId(i);
            }
            i += 1;
        }
        let id = DescriptorId(self.descriptors.len());
        proof {
            if self.lookup(term_key(*term)) is Some {
                let k = choose|k: int| 0 <= k < self.descriptors@.len() && self.descriptors@[k].key() == term_key(*term);
                assert(self.descriptors@[k].key() != (name@, kind_key(kind)));
            }
        }
        self.descriptors.push(TermDescriptor { name: name.clone(), kind });
        assert(forall|j: int| 0 <= j < self.descriptors@.len() - 1 ==> #[trigger] self.descriptors@[j].key() != self.descriptors@.last().key());
        id
    }
}

} // verus!
