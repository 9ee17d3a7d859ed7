use vstd::prelude::*;

use crate::scope::{scopes_wf, Scope, ScopeKind};
use crate::ty::{rank, Ty};
use crate::union::{members, union_wf, BuildState, UnionModel, UnionType};

verus! {

/// What the type algebra reads from the analyzer: the arena of compound
/// unions and the resolution of each generic instance.
pub struct Tables {
    pub unions: Seq<UnionModel>,
    pub instances: Seq<Ty>,
}

/// `t` refers only to entries that exist.
pub open spec fn valid(m: Tables, t: Ty) -> bool {
    match t {
        Ty::Union(id) => id < m.unions.len(),
        Ty::Instance(i) => i < m.instances.len(),
        _ => true,
    }
}

/// Every arena union is canonical and non-empty; every instance resolves to
/// a valid type that is not itself an instance.
pub open spec fn tables_wf(m: Tables) -> bool {
    &&& forall|i: int|
        0 <= i < m.unions.len() ==> union_wf(#[trigger] m.unions[i]) && members(
            m.unions[i],
        ).len() > 0
    &&& forall|i: int|
        0 <= i < m.instances.len() ==> valid(m, #[trigger] m.instances[i]) && rank(
            m.instances[i],
        ) < 2
}

/// `m2` keeps every entry of `m1` and may add unions and instances.
pub open spec fn extends(m1: Tables, m2: Tables) -> bool {
    &&& m1.unions.len() <= m2.unions.len()
    &&& forall|i: int| 0 <= i < m1.unions.len() ==> m2.unions[i] == #[trigger] m1.unions[i]
    &&& m1.instances.len() <= m2.instances.len()
    &&& forall|i: int| 0 <= i < m1.instances.len() ==> m2.instances[i] == #[trigger] m1.instances[i]
}

/// `r` is the type that a builder in state `b` yields.
pub open spec fn denotes(m: Tables, r: Ty, b: BuildState) -> bool {
    match b {
        BuildState::Never => r == Ty::Never,
        BuildState::Error => r == Ty::Error,
        BuildState::Any => r == Ty::Any,
        BuildState::Unknown => r == Ty::Unknown,
        BuildState::Compound(u) => match r {
            Ty::Union(id) => id < m.unions.len() && m.unions[id as int] == u,
            _ => false,
        },
    }
}

/// The analysis context: a pass-lifetime arena of compound unions, the
/// resolution of generic instances, and the stack of control-flow scopes.
pub struct Analyzer {
    pub unions: Vec<UnionType>,
    pub instances: Vec<Ty>,
    pub scopes: Vec<Scope>,
}

impl Analyzer {
    pub open spec fn tables(&self) -> Tables {
        Tables { unions: self.unions@.map_values(|u: UnionType| u@), instances: self.instances@ }
    }

    pub open spec fn wf(&self) -> bool {
        &&& tables_wf(self.tables())
        &&& scopes_wf(self.tables(), self.scopes@)
    }

    /// An analyzer with no unions, no instances and one empty root scope.
    pub fn new() -> (r: Analyzer)
        ensures
            r.wf(),
            r.unions@.len() == 0,
            r.instances@.len() == 0,
            r.scopes@.len() == 1,
            r.scopes@[0].kind == ScopeKind::Normal,
            r.scopes@[0].bindings@.len() == 0,
    {
        let mut scopes: Vec<Scope> = Vec::new();
        scopes.push(Scope { kind: ScopeKind::Normal, bindings: Vec::new() });
        let r = Analyzer { unions: Vec::new(), instances: Vec::new(), scopes };
        assert(r.tables().unions.len() == 0);
        r
    }

    /// Records what a generic instance resolves to and returns the instance.
    pub fn register_instance(&mut self, resolved: Ty) -> (r: Ty)
        requires
            old(self).wf(),
            valid(old(self).tables(), resolved),
            rank(resolved) < 2,
        ensures
            final(self).wf(),
            r == Ty::Instance(old(self).instances.len()),
            final(self).instances@ == old(self).instances@.push(resolved),
            final(self).unions@ == old(self).unions@,
            final(self).scopes@ == old(self).scopes@,
    {
        let id = self.instances.len();
        self.instances.push(resolved);
        assert(self.tables().unions =~= old(self).tables().unions);
        proof {
            assert forall|i: int| 0 <= i < self.tables().instances.len() implies valid(
                self.tables(),
                #[trigger] self.tables().instances[i],
            ) by {
                if i < old(self).instances.len() {
                    assert(valid(old(self).tables(), old(self).tables().instances[i]));
                }
            }
            crate::scope::lemma_scopes_wf_extends(old(self).tables(), self.tables(), self.scopes@);
        }
        Ty::Instance(id)
    }

    /// The type an instance resolves to.
    pub fn unwrap_generic_instance(&self, id: usize) -> (r: Ty)
        requires
            self.wf(),
            id < self.instances@.len(),
        ensures
            r == self.instances@[id as int],
            valid(self.tables(), r),
            rank(r) < 2,
    {
        self.instances[id]
    }

    /// The compound union stored at `id`.
    pub fn union_type(&self, id: usize) -> (r: &UnionType)
        requires
            id < self.unions@.len(),
        ensures
            r@ == self.tables().unions[id as int],
    {
        &self.unions[id]
    }

    /// Stores a compound union in the arena and returns its reference.
    pub fn alloc_union(&mut self, u: UnionType) -> (r: Ty)
        requires
            old(self).wf(),
            union_wf(u@),
            members(u@).len() > 0,
        ensures
            final(self).wf(),
            r == Ty::Union(old(self).unions.len()),
            final(self).tables().unions == old(self).tables().unions.push(u@),
            final(self).instances@ == old(self).instances@,
            final(self).scopes@ == old(self).scopes@,
            extends(old(self).tables(), final(self).tables()),
            denotes(final(self).tables(), r, BuildState::Compound(u@)),
    {
        let id = self.unions.len();
        self.unions.push(u);
        assert(self.tables().unions =~= old(self).tables().unions.push(u@));
        proof {
            assert forall|i: int| 0 <= i < self.tables().instances.len() implies valid(
                self.tables(),
                #[trigger] self.tables().instances[i],
            ) by {
                assert(valid(old(self).tables(), old(self).tables().instances[i]));
            }
            crate::scope::lemma_scopes_wf_extends(old(self).tables(), self.tables(), self.scopes@);
        }
        Ty::Union(id)
    }
}

} // verus!
