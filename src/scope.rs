use vstd::prelude::*;

use crate::analyzer::{denotes, extends, tables_wf, valid, Analyzer, Tables};
use crate::union::{add_all, lemma_add_all_extends, lemma_denotes_extends, BuildState};
use crate::ty::Ty;

verus! {

/// How a frame's writes reach its parent when it is popped.
#[derive(Clone, Copy, Debug, PartialEq, Eq, Structural)]
pub enum ScopeKind {
    /// The guarded code certainly ran: writes carry over as they are.
    Normal,
    /// The guarded code may or may not have run.
    Indeterminate,
    /// The guarded code ran zero, one or many times.
    Loop,
}

/// One binding override: binding `id` holds type `ty`.
#[derive(Clone, Copy, Debug, PartialEq, Eq, Structural)]
pub struct Binding {
    pub id: u64,
    pub ty: Ty,
}

/// A control-flow frame and the bindings written while it was on top.
pub struct Scope {
    pub kind: ScopeKind,
    pub bindings: Vec<Binding>,
}

/// Each binding id appears once in a frame.
pub open spec fn ids_unique(bs: Seq<Binding>) -> bool {
    forall|i: int, j: int| 0 <= i < bs.len() && 0 <= j < bs.len() && i != j ==> #[trigger] bs[i].id != #[trigger] bs[j].id
}

pub open spec fn frame_wf(m: Tables, f: Scope) -> bool {
    &&& ids_unique(f.bindings@)
    &&& forall|i: int| 0 <= i < f.bindings@.len() ==> valid(m, (#[trigger] f.bindings@[i]).ty)
}

/// The root frame is never popped; every frame is well formed.
pub open spec fn scopes_wf(m: Tables, frames: Seq<Scope>) -> bool {
    &&& frames.len() >= 1
    &&& forall|i: int| 0 <= i < frames.len() ==> frame_wf(m, #[trigger] frames[i])
}

pub proof fn lemma_valid_extends(m1: Tables, m2: Tables, t: Ty)
    requires
        extends(m1, m2),
        valid(m1, t),
    ensures
        valid(m2, t),
{
}

pub proof fn lemma_scopes_wf_extends(m1: Tables, m2: Tables, frames: Seq<Scope>)
    requires
        extends(m1, m2),
        scopes_wf(m1, frames),
    ensures
        scopes_wf(m2, frames),
{
    assert forall|i: int| 0 <= i < frames.len() implies frame_wf(m2, #[trigger] frames[i]) by {
        let f = frames[i];
        assert(frame_wf(m1, f));
        assert forall|j: int| 0 <= j < f.bindings@.len() implies valid(
            m2,
            (#[trigger] f.bindings@[j]).ty,
        ) by {
            lemma_valid_extends(m1, m2, f.bindings@[j].ty);
        }
    }
}

/// The last write of binding `id` among `bs`.
pub open spec fn frame_get(bs: Seq<Binding>, id: u64) -> Option<Ty>
    decreases bs.len(),
{
    if bs.len() == 0 {
        None
    } else if bs.last().id == id {
        Some(bs.last().ty)
    } else {
        frame_get(bs.drop_last(), id)
    }
}

/// The value of binding `id` seen from the top of the stack.
pub open spec fn lookup(frames: Seq<Scope>, id: u64) -> Option<Ty>
    decreases frames.len(),
{
    if frames.len() == 0 {
        None
    } else {
        match frame_get(frames.last().bindings@, id) {
            Some(t) => Some(t),
            None => lookup(frames.drop_last(), id),
        }
    }
}

/// What a popped write of `t` becomes in the parent: a `Normal` frame, or a
/// binding with no outer value, carries it over; otherwise the outer value
/// and `t` are folded into one type (the guarded code may not have run).
pub open spec fn merge_ok(
    m_new: Tables,
    m_old: Tables,
    kind: ScopeKind,
    outer: Option<Ty>,
    t: Ty,
    v: Ty,
) -> bool {
    match outer {
        Some(o) => if kind == ScopeKind::Normal {
            v == t
        } else {
            denotes(m_new, v, add_all(m_old, BuildState::Never, seq![o, t]))
        },
        None => v == t,
    }
}

/// `after` is `below` with the writes of a popped frame of `kind` merged into
/// its top frame.
pub open spec fn pop_result(
    m_old: Tables,
    m_new: Tables,
    kind: ScopeKind,
    below: Seq<Scope>,
    writes: Seq<Binding>,
    after: Seq<Scope>,
) -> bool {
    &&& after.len() == below.len()
    &&& below.len() >= 1
    &&& forall|j: int| 0 <= j < below.len() - 1 ==> after[j] == #[trigger] below[j]
    &&& after.last().kind == below.last().kind
    &&& forall|k: u64|
        match #[trigger] frame_get(writes, k) {
            Some(t) => match frame_get(after.last().bindings@, k) {
                Some(v) => merge_ok(m_new, m_old, kind, lookup(below, k), t, v),
                None => false,
            },
            None => frame_get(after.last().bindings@, k) == frame_get(below.last().bindings@, k),
        }
}

proof fn lemma_frame_get_push(bs: Seq<Binding>, b: Binding, k: u64)
    ensures
        frame_get(bs.push(b), k) == if k == b.id {
            Some(b.ty)
        } else {
            frame_get(bs, k)
        },
{
    assert(bs.push(b).drop_last() =~= bs);
}

proof fn lemma_frame_get_absent(bs: Seq<Binding>, k: u64)
    requires
        forall|i: int| 0 <= i < bs.len() ==> (#[trigger] bs[i]).id != k,
    ensures
        frame_get(bs, k) == None::<Ty>,
    decreases bs.len(),
{
    if bs.len() > 0 {
        lemma_frame_get_absent(bs.drop_last(), k);
    }
}

proof fn lemma_frame_get_at(bs: Seq<Binding>, i: int, k: u64)
    requires
        ids_unique(bs),
        0 <= i < bs.len(),
        bs[i].id == k,
    ensures
        frame_get(bs, k) == Some(bs[i].ty),
    decreases bs.len(),
{
    if i < bs.len() - 1 {
        assert(bs.last().id != k);
        let d = bs.drop_last();
        assert(ids_unique(d)) by {
            assert forall|a: int, b: int| 0 <= a < d.len() && 0 <= b < d.len() && a != b implies #[trigger] d[a].id != #[trigger] d[b].id by {
                assert(d[a] == bs[a] && d[b] == bs[b]);
            }
        }
        lemma_frame_get_at(d, i, k);
    }
}

proof fn lemma_frame_get_update(bs: Seq<Binding>, i: int, b: Binding, k: u64)
    requires
        ids_unique(bs),
        0 <= i < bs.len(),
        bs[i].id == b.id,
    ensures
        ids_unique(bs.update(i, b)),
        frame_get(bs.update(i, b), k) == if k == b.id {
            Some(b.ty)
        } else {
            frame_get(bs, k)
        },
{
    let u = bs.update(i, b);
    assert forall|x: int, y: int| 0 <= x < u.len() && 0 <= y < u.len() && x != y implies #[trigger] u[x].id != #[trigger] u[y].id by {
        assert(bs[x].id == u[x].id && bs[y].id == u[y].id);
    }
    if k == b.id {
        lemma_frame_get_at(u, i, k);
    } else {
        if exists|j: int| 0 <= j < bs.len() && bs[j].id == k {
            let j = choose|j: int| 0 <= j < bs.len() && bs[j].id == k;
            lemma_frame_get_at(bs, j, k);
            lemma_frame_get_at(u, j, k);
        } else {
            lemma_frame_get_absent(bs, k);
            assert forall|j: int| 0 <= j < u.len() implies (#[trigger] u[j]).id != k by {
                if j != i {
                    assert(u[j] == bs[j]);
                }
            }
            lemma_frame_get_absent(u, k);
        }
    }
}

proof fn lemma_frame_get_valid(m: Tables, f: Scope, k: u64)
    requires
        frame_wf(m, f),
    ensures
        frame_get(f.bindings@, k) matches Some(t) ==> valid(m, t),
{
    let bs = f.bindings@;
    if exists|j: int| 0 <= j < bs.len() && bs[j].id == k {
        let j = choose|j: int| 0 <= j < bs.len() && bs[j].id == k;
        lemma_frame_get_at(bs, j, k);
    } else {
        lemma_frame_get_absent(bs, k);
    }
}

proof fn lemma_lookup_valid(m: Tables, frames: Seq<Scope>, k: u64)
    requires
        forall|i: int| 0 <= i < frames.len() ==> frame_wf(m, #[trigger] frames[i]),
    ensures
        lookup(frames, k) matches Some(t) ==> valid(m, t),
    decreases frames.len(),
{
    if frames.len() > 0 {
        lemma_frame_get_valid(m, frames.last(), k);
        let d = frames.drop_last();
        assert forall|i: int| 0 <= i < d.len() implies frame_wf(m, #[trigger] d[i]) by {
            assert(d[i] == frames[i]);
        }
        lemma_lookup_valid(m, d, k);
    }
}

proof fn lemma_merge_ok_extends(
    m1: Tables,
    m2: Tables,
    m_old: Tables,
    kind: ScopeKind,
    outer: Option<Ty>,
    t: Ty,
    v: Ty,
)
    requires
        extends(m1, m2),
        merge_ok(m1, m_old, kind, outer, t, v),
    ensures
        merge_ok(m2, m_old, kind, outer, t, v),
{
    if let Some(o) = outer {
        if kind != ScopeKind::Normal {
            lemma_denotes_extends(m1, m2, v, add_all(m_old, BuildState::Never, seq![o, t]));
        }
    }
}

/// What a guarded statement does to bindings: its writes, in order.
pub struct WhileStatement {
    pub test: Vec<Binding>,
    pub body: Vec<Binding>,
}

fn find_binding(bs: &Vec<Binding>, id: u64) -> (r: Option<usize>)
    ensures
        r matches Some(i) ==> i < bs@.len() && bs@[i as int].id == id,
        r is None ==> forall|j: int| 0 <= j < bs@.len() ==> (#[trigger] bs@[j]).id != id,
{
    let mut i: usize = 0;
    while i < bs.len()
        invariant
            i <= bs@.len(),
            forall|j: int| 0 <= j < i ==> (#[trigger] bs@[j]).id != id,
        decreases bs.len() - i,
    {
        if bs[i].id == id {
            return Some(i);
        }
        i += 1;
    }
    None
}

impl Analyzer {
    /// The current value of binding `id`, from the innermost frame out.
    pub fn read_binding(&self, id: u64) -> (r: Option<Ty>)
        requires
            self.wf(),
        ensures
            r == lookup(self.scopes@, id),
            r matches Some(t) ==> valid(self.tables(), t),
    {
        let mut n = self.scopes.len();
        assert(self.scopes@.take(n as int) =~= self.scopes@);
        while n > 0
            invariant
                self.wf(),
                n <= self.scopes@.len(),
                lookup(self.scopes@, id) == lookup(self.scopes@.take(n as int), id),
            decreases n,
        {
            let f = &self.scopes[n - 1];
            assert(self.scopes@.take(n as int).drop_last() =~= self.scopes@.take(n - 1));
            assert(frame_wf(self.tables(), self.scopes@[n - 1]));
            let mut i = f.bindings.len();
            assert(f.bindings@.take(i as int) =~= f.bindings@);
            while i > 0
                invariant
                    self.wf(),
                    0 < n <= self.scopes@.len(),
                    *f == self.scopes@[n - 1],
                    frame_wf(self.tables(), *f),
                    lookup(self.scopes@, id) == lookup(self.scopes@.take(n as int), id),
                    i <= f.bindings@.len(),
                    frame_get(f.bindings@, id) == frame_get(f.bindings@.take(i as int), id),
                decreases i,
            {
                assert(f.bindings@.take(i as int).drop_last() =~= f.bindings@.take(i - 1));
                if f.bindings[i - 1].id == id {
                    assert(self.scopes@.take(n as int).last() == self.scopes@[n - 1]);
                    assert(valid(self.tables(), f.bindings@[i - 1].ty));
                    return Some(f.bindings[i - 1].ty);
                }
                i -= 1;
            }
            assert(f.bindings@.take(0) =~= Seq::<Binding>::empty());
            assert(self.scopes@.take(n as int).last() == self.scopes@[n - 1]);
            n -= 1;
        }
        assert(self.scopes@.take(0) =~= Seq::<Scope>::empty());
        None
    }

    /// Writes binding `id` in the innermost frame.
    pub fn write_binding(&mut self, id: u64, ty: Ty)
        requires
            old(self).wf(),
            valid(old(self).tables(), ty),
        ensures
            final(self).wf(),
            final(self).unions@ == old(self).unions@,
            final(self).instances@ == old(self).instances@,
            final(self).scopes@.len() == old(self).scopes@.len(),
            forall|j: int|
                0 <= j < old(self).scopes@.len() - 1 ==> final(self).scopes@[j] == #[trigger] old(
                    self,
                ).scopes@[j],
            final(self).scopes@.last().kind == old(self).scopes@.last().kind,
            forall|k: u64|
                #[trigger] frame_get(final(self).scopes@.last().bindings@, k) == if k == id {
                    Some(ty)
                } else {
                    frame_get(old(self).scopes@.last().bindings@, k)
                },
    {
        let top = self.scopes.len() - 1;
        let mut frame = Scope { kind: ScopeKind::Normal, bindings: Vec::new() };
        std::mem::swap(&mut frame, &mut self.scopes[top]);
        let ghost old_frame = frame;
        assert(frame_wf(self.tables(), old_frame));
        let b = Binding { id, ty };
        let pos = find_binding(&frame.bindings, id);
        if let Some(i) = pos {
            frame.bindings.set(i, b);
            proof {
                assert forall|k: u64| #[trigger] frame_get(frame.bindings@, k) == (if k == id {
                    Some(ty)
                } else {
                    frame_get(old_frame.bindings@, k)
                }) by {
                    lemma_frame_get_update(old_frame.bindings@, i as int, b, k);
                }
                lemma_frame_get_update(old_frame.bindings@, i as int, b, 0);
            }
        } else {
            frame.bindings.push(b);
            let ghost i: int = 0;
            proof {
                assert forall|k: u64| #[trigger] frame_get(frame.bindings@, k) == (if k == id {
                    Some(ty)
                } else {
                    frame_get(old_frame.bindings@, k)
                }) by {
                    lemma_frame_get_push(old_frame.bindings@, b, k);
                }
                let bs = frame.bindings@;
                assert forall|x: int, y: int| 0 <= x < bs.len() && 0 <= y < bs.len() && x != y implies #[trigger] bs[x].id != #[trigger] bs[y].id by {
                    if x < bs.len() - 1 && y < bs.len() - 1 {
                        assert(bs[x] == old_frame.bindings@[x] && bs[y] == old_frame.bindings@[y]);
                    }
                }
            }
        }
        std::mem::swap(&mut frame, &mut self.scopes[top]);
        proof {
            let fr = self.scopes@[top as int];
            assert(frame_wf(self.tables(), fr)) by {
                assert forall|j: int| 0 <= j < fr.bindings@.len() implies valid(self.tables(), (#[trigger] fr.bindings@[j]).ty) by {
                    if fr.bindings@[j] != b && j < old_frame.bindings@.len() {
                        assert(fr.bindings@[j] == old_frame.bindings@[j]);
                    }
                }
            }
            assert forall|j: int| 0 <= j < self.scopes@.len() implies frame_wf(self.tables(), #[trigger] self.scopes@[j]) by {
                if j != top {
                    assert(self.scopes@[j] == old(self).scopes@[j]);
                }
            }
        }
    }

    fn push_scope(&mut self, kind: ScopeKind)
        requires
            old(self).wf(),
        ensures
            final(self).wf(),
            final(self).unions@ == old(self).unions@,
            final(self).instances@ == old(self).instances@,
            final(self).scopes@ == old(self).scopes@.push(Scope { kind, bindings: final(self).scopes@.last().bindings }),
            final(self).scopes@.last().bindings@.len() == 0,
    {
        self.scopes.push(Scope { kind, bindings: Vec::new() });
        proof {
            assert forall|j: int| 0 <= j < self.scopes@.len() implies frame_wf(self.tables(), #[trigger] self.scopes@[j]) by {
                if j < old(self).scopes@.len() {
                    assert(self.scopes@[j] == old(self).scopes@[j]);
                }
            }
        }
    }

    /// Opens a frame whose code may or may not run.
    pub fn push_indeterminate_scope(&mut self)
        requires
            old(self).wf(),
        ensures
            final(self).wf(),
            final(self).unions@ == old(self).unions@,
            final(self).instances@ == old(self).instances@,
            final(self).scopes@ == old(self).scopes@.push(Scope { kind: ScopeKind::Indeterminate, bindings: final(self).scopes@.last().bindings }),
            final(self).scopes@.last().bindings@.len() == 0,
    {
        self.push_scope(ScopeKind::Indeterminate);
    }

    /// Opens a frame whose code may run zero, one or many times.
    pub fn push_loop_scope(&mut self)
        requires
            old(self).wf(),
        ensures
            final(self).wf(),
            final(self).unions@ == old(self).unions@,
            final(self).instances@ == old(self).instances@,
            final(self).scopes@ == old(self).scopes@.push(Scope { kind: ScopeKind::Loop, bindings: final(self).scopes@.last().bindings }),
            final(self).scopes@.last().bindings@.len() == 0,
    {
        self.push_scope(ScopeKind::Loop);
    }

    /// Closes the innermost frame and merges its writes into the parent as
    /// its kind prescribes.
    pub fn pop_scope(&mut self)
        requires
            old(self).wf(),
            old(self).scopes@.len() >= 2,
        ensures
            final(self).wf(),
            extends(old(self).tables(), final(self).tables()),
            final(self).instances@ == old(self).instances@,
            pop_result(
                old(self).tables(),
                final(self).tables(),
                old(self).scopes@.last().kind,
                old(self).scopes@.drop_last(),
                old(self).scopes@.last().bindings@,
                final(self).scopes@,
            ),
    {
        let ghost m0 = self.tables();
        let popped = self.scopes.pop().unwrap();
        let ghost below = self.scopes@;
        let ghost pb = popped.bindings@;
        proof {
            assert(below =~= old(self).scopes@.drop_last());
            assert(popped == old(self).scopes@.last());
            assert(frame_wf(m0, popped));
            assert forall|j: int| 0 <= j < below.len() implies frame_wf(m0, #[trigger] below[j]) by {
                assert(below[j] == old(self).scopes@[j]);
            }
            assert(pb.take(0) =~= Seq::<Binding>::empty());
        }
        let mut i: usize = 0;
        while i < popped.bindings.len()
            invariant
                self.wf(),
                extends(m0, self.tables()),
                tables_wf(m0),
                self.instances@ == old(self).instances@,
                popped.bindings@ == pb,
                frame_wf(m0, popped),
                forall|j: int| 0 <= j < below.len() ==> frame_wf(m0, #[trigger] below[j]),
                below.len() >= 1,
                self.scopes@.len() == below.len(),
                forall|j: int| 0 <= j < below.len() - 1 ==> self.scopes@[j] == #[trigger] below[j],
                self.scopes@.last().kind == below.last().kind,
                i <= pb.len(),
                forall|k: u64|
                    match #[trigger] frame_get(pb.take(i as int), k) {
                        Some(t) => match frame_get(self.scopes@.last().bindings@, k) {
                            Some(v) => merge_ok(self.tables(), m0, popped.kind, lookup(below, k), t, v),
                            None => false,
                        },
                        None => frame_get(self.scopes@.last().bindings@, k) == frame_get(
                            below.last().bindings@,
                            k,
                        ),
                    },
            decreases pb.len() - i,
        {
            let b = popped.bindings[i];
            let ghost m_i = self.tables();
            let ghost top_i = self.scopes@.last().bindings@;
            proof {
                assert forall|j: int| 0 <= j < i implies (#[trigger] pb.take(i as int)[j]).id != b.id by {
                    assert(pb.take(i as int)[j] == pb[j]);
                }
                lemma_frame_get_absent(pb.take(i as int), b.id);
                assert(self.scopes@.drop_last() =~= below.drop_last());
                assert(lookup(self.scopes@, b.id) == lookup(below, b.id));
                lemma_lookup_valid(m0, below, b.id);
                assert(valid(m0, b.ty));
            }
            let v = if popped.kind == ScopeKind::Normal {
                b.ty
            } else {
                match self.read_binding(b.id) {
                    Some(o) => {
                        let types = vec![o, b.ty];
                        assert(types@ =~= seq![o, b.ty]);
                        let r = self.into_union(types);
                        proof {
                            lemma_add_all_extends(m0, m_i, BuildState::Never, seq![o, b.ty]);
                        }
                        r
                    },
                    None => b.ty,
                }
            };
            let ghost m_v = self.tables();
            proof {
                crate::scope::lemma_valid_extends(m0, m_v, b.ty);
            }
            self.write_binding(b.id, v);
            i += 1;
            proof {
                assert(pb.take(i as int) =~= pb.take(i - 1).push(b));
                assert forall|k: u64|
                    match #[trigger] frame_get(pb.take(i as int), k) {
                        Some(t) => match frame_get(self.scopes@.last().bindings@, k) {
                            Some(v) => merge_ok(self.tables(), m0, popped.kind, lookup(below, k), t, v),
                            None => false,
                        },
                        None => frame_get(self.scopes@.last().bindings@, k) == frame_get(
                            below.last().bindings@,
                            k,
                        ),
                    } by {
                    lemma_frame_get_push(pb.take(i - 1), b, k);
                    if k != b.id {
                        if let Some(t) = frame_get(pb.take(i - 1), k) {
                            if let Some(w) = frame_get(top_i, k) {
                                lemma_merge_ok_extends(m_i, self.tables(), m0, popped.kind, lookup(below, k), t, w);
                            }
                        }
                    }
                }
            }
        }
        proof {
            assert(pb.take(pb.len() as int) =~= pb);
        }
    }

    /// Performs the writes of `writes`, in order, in the innermost frame.
    pub fn exec_effects(&mut self, writes: &Vec<Binding>)
        requires
            old(self).wf(),
            forall|i: int| 0 <= i < writes@.len() ==> valid(old(self).tables(), (#[trigger] writes@[i]).ty),
        ensures
            final(self).wf(),
            final(self).unions@ == old(self).unions@,
            final(self).instances@ == old(self).instances@,
            final(self).scopes@.len() == old(self).scopes@.len(),
            forall|j: int|
                0 <= j < old(self).scopes@.len() - 1 ==> final(self).scopes@[j] == #[trigger] old(
                    self,
                ).scopes@[j],
            final(self).scopes@.last().kind == old(self).scopes@.last().kind,
            forall|k: u64|
                #[trigger] frame_get(final(self).scopes@.last().bindings@, k) == match frame_get(writes@, k) {
                    Some(t) => Some(t),
                    None => frame_get(old(self).scopes@.last().bindings@, k),
                },
    {
        let mut i: usize = 0;
        assert(writes@.take(0) =~= Seq::<Binding>::empty());
        while i < writes.len()
            invariant
                self.wf(),
                self.unions@ == old(self).unions@,
                self.instances@ == old(self).instances@,
                forall|j: int| 0 <= j < writes@.len() ==> valid(self.tables(), (#[trigger] writes@[j]).ty),
                i <= writes@.len(),
                self.scopes@.len() == old(self).scopes@.len(),
                forall|j: int|
                    0 <= j < old(self).scopes@.len() - 1 ==> self.scopes@[j] == #[trigger] old(
                        self,
                    ).scopes@[j],
                self.scopes@.last().kind == old(self).scopes@.last().kind,
                forall|k: u64|
                    #[trigger] frame_get(self.scopes@.last().bindings@, k) == match frame_get(writes@.take(i as int), k) {
                        Some(t) => Some(t),
                        None => frame_get(old(self).scopes@.last().bindings@, k),
                    },
            decreases writes.len() - i,
        {
            let b = writes[i];
            self.write_binding(b.id, b.ty);
            i += 1;
            proof {
                assert(writes@.take(i as int) =~= writes@.take(i - 1).push(b));
                assert forall|k: u64|
                    #[trigger] frame_get(self.scopes@.last().bindings@, k) == match frame_get(writes@.take(i as int), k) {
                        Some(t) => Some(t),
                        None => frame_get(old(self).scopes@.last().bindings@, k),
                    } by {
                    lemma_frame_get_push(writes@.take(i - 1), b, k);
                }
            }
        }
        assert(writes@.take(writes@.len() as int) =~= writes@);
    }

    /// A `while` statement: the test runs in an indeterminate frame, then the
    /// body in a loop frame, so that after the statement each binding the
    /// body writes holds the union of its value before and after one run.
    pub fn exec_while_statement(&mut self, node: &WhileStatement)
        requires
            old(self).wf(),
            forall|i: int| 0 <= i < node.test@.len() ==> valid(old(self).tables(), (#[trigger] node.test@[i]).ty),
            forall|i: int| 0 <= i < node.body@.len() ==> valid(old(self).tables(), (#[trigger] node.body@[i]).ty),
        ensures
            final(self).wf(),
            extends(old(self).tables(), final(self).tables()),
            final(self).instances@ == old(self).instances@,
            exists|s1: Seq<Scope>, m1: Tables|
                pop_result(old(self).tables(), m1, ScopeKind::Indeterminate, old(self).scopes@, node.test@, s1)
                && pop_result(m1, final(self).tables(), ScopeKind::Loop, s1, node.body@, final(self).scopes@),
    {
        let ghost m0 = self.tables();
        let ghost s0 = self.scopes@;
        self.push_indeterminate_scope();
        let ghost sp = self.scopes@;
        self.exec_effects(&node.test);
        let ghost popped1 = self.scopes@.last().bindings@;
        proof {
            assert forall|j: int| 0 <= j < s0.len() implies self.scopes@.drop_last()[j] == s0[j] by {
                assert(sp[j] == s0[j]);
            }
            assert(self.scopes@.drop_last() =~= s0);
        }
        self.pop_scope();
        let ghost m1 = self.tables();
        let ghost s1 = self.scopes@;
        proof {
            assert forall|k: u64| #[trigger] frame_get(node.test@, k) == frame_get(popped1, k) by {}
            assert(pop_result(m0, m1, ScopeKind::Indeterminate, s0, node.test@, s1));
            assert forall|i: int| 0 <= i < node.body@.len() implies valid(self.tables(), (#[trigger] node.body@[i]).ty) by {
                lemma_valid_extends(m0, m1, node.body@[i].ty);
            }
        }
        self.push_loop_scope();
        let ghost sp = self.scopes@;
        self.exec_effects(&node.body);
        let ghost popped2 = self.scopes@.last().bindings@;
        proof {
            assert forall|j: int| 0 <= j < s1.len() implies self.scopes@.drop_last()[j] == s1[j] by {
                assert(sp[j] == s1[j]);
            }
            assert(self.scopes@.drop_last() =~= s1);
        }
        self.pop_scope();
        proof {
            assert forall|k: u64| #[trigger] frame_get(node.body@, k) == frame_get(popped2, k) by {}
            assert(pop_result(m1, self.tables(), ScopeKind::Loop, s1, node.body@, self.scopes@));
        }
    }
}

} // verus!
