use vstd::prelude::*;

use crate::analyzer::{denotes, tables_wf, valid, Tables};
use crate::union::{build_wf, lemma_model_add_wf};
use crate::ty::{any_of, is_complex, is_escalating, is_member, literal_of, rank, LiteralKind, Ty};
use crate::union::{
    add_all, add_members, add_simple, add_spec, bool_members, empty_model, flag_members, lit_add,
    lit_members, lit_wf, members, model_add, union_wf, BuildState, LitModel, UnionModel,
};

verus! {

/// `x` added `n` times.
pub open spec fn lit_add_repeat(l: LitModel, x: u64, n: nat) -> LitModel
    decreases n,
{
    if n == 0 {
        l
    } else {
        lit_add(lit_add_repeat(l, x, (n - 1) as nat), x)
    }
}

proof fn lemma_lit_add_twice(l: LitModel, x: u64)
    ensures
        lit_add(lit_add(l, x), x) == lit_add(l, x),
{
    match l {
        LitModel::Vacant => {
            assert(seq![x][0] == x);
        },
        LitModel::Literals(s) => {
            if !s.contains(x) {
                assert(s.push(x)[s.len() as int] == x);
            }
        },
        _ => {},
    }
}

/// Adding the same literal any number of times (at least once) gives the
/// same lattice as adding it once.
pub proof fn law_widening_idempotent(l: LitModel, x: u64, n: nat)
    requires
        n >= 1,
    ensures
        lit_add_repeat(l, x, n) == lit_add(l, x),
    decreases n,
{
    assert(lit_add_repeat(l, x, 0) == l);
    if n > 1 {
        law_widening_idempotent(l, x, (n - 1) as nat);
        lemma_lit_add_twice(l, x);
        assert(lit_add_repeat(l, x, n) == lit_add(lit_add_repeat(l, x, (n - 1) as nat), x));
    }
}

/// A fully widened lattice absorbs every literal.
pub proof fn law_literal_any_absorbs(x: u64)
    ensures
        lit_add(LitModel::Any, x) == LitModel::Any,
{
}

/// Once a builder is `Error`, `Any` or `Unknown`, no further additions
/// change it.
pub proof fn law_builder_absorbs(m: Tables, b: BuildState, ts: Seq<Ty>)
    requires
        b.is_top(),
    ensures
        add_all(m, b, ts) == b,
    decreases ts.len(),
{
    if ts.len() > 0 {
        law_builder_absorbs(m, b, ts.drop_last());
    }
}

proof fn lemma_add_all_step(m: Tables, b: BuildState, ts: Seq<Ty>, k: int)
    requires
        0 <= k < ts.len(),
    ensures
        add_all(m, b, ts.take(k + 1)) == add_spec(m, add_all(m, b, ts.take(k)), ts[k]),
{
    assert(ts.take(k + 1).drop_last() =~= ts.take(k));
}

/// `t` degrades a union to `Error`, directly or through the instance it is.
pub open spec fn escalates(m: Tables, t: Ty) -> bool {
    is_escalating(t) || match t {
        Ty::Instance(i) => i < m.instances.len() && is_escalating(m.instances[i as int]),
        _ => false,
    }
}

/// `t` turns a union into `Any` or `Unknown`, directly or through the
/// instance it is.
pub open spec fn widens_to_top(m: Tables, t: Ty) -> bool {
    t == Ty::Any || t == Ty::Unknown || match t {
        Ty::Instance(i) => i < m.instances.len() && (m.instances[i as int] == Ty::Any
            || m.instances[i as int] == Ty::Unknown),
        _ => false,
    }
}

proof fn lemma_add_members_not_top(b: BuildState, ms: Seq<Ty>)
    requires
        !b.is_top(),
    ensures
        !add_members(b, ms).is_top(),
    decreases ms.len(),
{
    if ms.len() > 0 {
        lemma_add_members_not_top(b, ms.drop_last());
    }
}

proof fn lemma_step_not_top(m: Tables, b: BuildState, t: Ty)
    requires
        tables_wf(m),
        valid(m, t),
        !b.is_top(),
        !widens_to_top(m, t),
    ensures
        add_spec(m, b, t) == BuildState::Error || !add_spec(m, b, t).is_top(),
{
    match t {
        Ty::Union(id) => {
            assert(add_spec(m, b, t) == add_members(b, members(m.unions[id as int])));
            lemma_add_members_not_top(b, members(m.unions[id as int]));
        },
        Ty::Instance(i) => {
            let r = m.instances[i as int];
            assert(valid(m, r) && rank(r) < 2);
            assert(add_spec(m, b, t) == add_spec(m, b, r));
            if let Ty::Union(id) = r {
                assert(add_spec(m, b, r) == add_members(b, members(m.unions[id as int])));
                lemma_add_members_not_top(b, members(m.unions[id as int]));
            }
        },
        _ => {},
    }
}

proof fn lemma_prefix_not_top(m: Tables, ts: Seq<Ty>, i: int, k: int)
    requires
        tables_wf(m),
        forall|j: int| 0 <= j < ts.len() ==> valid(m, #[trigger] ts[j]),
        0 <= k <= i < ts.len(),
        forall|j: int| 0 <= j < i ==> !widens_to_top(m, #[trigger] ts[j]),
    ensures
        add_all(m, BuildState::Never, ts.take(k)) == BuildState::Error || !add_all(
            m,
            BuildState::Never,
            ts.take(k),
        ).is_top(),
    decreases k,
{
    if k == 0 {
        assert(ts.take(0) =~= Seq::<Ty>::empty());
    } else {
        lemma_prefix_not_top(m, ts, i, k - 1);
        lemma_add_all_step(m, BuildState::Never, ts, k - 1);
        let b = add_all(m, BuildState::Never, ts.take(k - 1));
        if !b.is_top() {
            lemma_step_not_top(m, b, ts[k - 1]);
        }
    }
}

proof fn lemma_stays_error(m: Tables, ts: Seq<Ty>, i: int, k: int)
    requires
        0 <= i < k <= ts.len(),
        add_all(m, BuildState::Never, ts.take(i + 1)) == BuildState::Error,
    ensures
        add_all(m, BuildState::Never, ts.take(k)) == BuildState::Error,
    decreases k,
{
    if k > i + 1 {
        lemma_stays_error(m, ts, i, k - 1);
        lemma_add_all_step(m, BuildState::Never, ts, k - 1);
    }
}

/// Folding a sequence in which a kind that a union cannot hold occurs, with
/// no `Any` or `Unknown` before it, yields `Error`, whatever else the
/// sequence holds.
pub proof fn law_escalation_dominance(m: Tables, ts: Seq<Ty>, i: int)
    requires
        tables_wf(m),
        forall|j: int| 0 <= j < ts.len() ==> valid(m, #[trigger] ts[j]),
        0 <= i < ts.len(),
        escalates(m, ts[i]),
        forall|j: int| 0 <= j < i ==> !widens_to_top(m, #[trigger] ts[j]),
    ensures
        add_all(m, BuildState::Never, ts) == BuildState::Error,
{
    lemma_prefix_not_top(m, ts, i, i);
    lemma_add_all_step(m, BuildState::Never, ts, i);
    let b = add_all(m, BuildState::Never, ts.take(i));
    if let Ty::Instance(n) = ts[i] {
        let r = m.instances[n as int];
        assert(is_escalating(r));
        assert(valid(m, r) && rank(r) < 2);
        assert(add_spec(m, b, ts[i]) == add_spec(m, b, r));
    }
    assert(add_all(m, BuildState::Never, ts.take(i + 1)) == BuildState::Error);
    lemma_stays_error(m, ts, i, ts.len() as int);
    assert(ts.take(ts.len() as int) =~= ts);
}

/// `Never` is the identity of the builder: folding `[Never, x]` gives what
/// folding `[x]` gives.
pub proof fn law_never_identity(m: Tables, x: Ty)
    ensures
        add_all(m, BuildState::Never, seq![Ty::Never, x]) == add_all(
            m,
            BuildState::Never,
            seq![x],
        ),
{
    let n = BuildState::Never;
    assert(seq![Ty::Never, x].drop_last() =~= seq![Ty::Never]);
    assert(seq![Ty::Never].drop_last() =~= Seq::<Ty>::empty());
    assert(seq![x].drop_last() =~= Seq::<Ty>::empty());
    assert(add_all(m, n, Seq::<Ty>::empty()) == n);
    assert(add_all(m, n, seq![Ty::Never]) == add_spec(m, n, Ty::Never));
    assert(add_spec(m, n, Ty::Never) == n);
    assert(add_all(m, n, seq![Ty::Never, x]) == add_spec(m, add_all(m, n, seq![Ty::Never]), x));
    assert(add_all(m, n, seq![x]) == add_spec(m, n, x));
}

/// Adding member types in order to a union.
pub open spec fn fold_model(x: UnionModel, ms: Seq<Ty>) -> UnionModel
    decreases ms.len(),
{
    if ms.len() == 0 {
        x
    } else {
        model_add(fold_model(x, ms.drop_last()), ms.last())
    }
}

pub open spec fn get_lit(u: UnionModel, k: LiteralKind) -> LitModel {
    match k {
        LiteralKind::String => u.string,
        LiteralKind::Number => u.number,
        LiteralKind::BigInt => u.bigint,
        LiteralKind::Symbol => u.symbol,
    }
}

pub open spec fn set_lit(u: UnionModel, k: LiteralKind, l: LitModel) -> UnionModel {
    match k {
        LiteralKind::String => UnionModel { string: l, ..u },
        LiteralKind::Number => UnionModel { number: l, ..u },
        LiteralKind::BigInt => UnionModel { bigint: l, ..u },
        LiteralKind::Symbol => UnionModel { symbol: l, ..u },
    }
}

proof fn lemma_add_members_compound(b: BuildState, ms: Seq<Ty>)
    requires
        !b.is_top(),
        ms.len() > 0,
    ensures
        add_members(b, ms) == BuildState::Compound(fold_model(b.collected(), ms)),
    decreases ms.len(),
{
    if ms.len() > 1 {
        lemma_add_members_compound(b, ms.drop_last());
    } else {
        assert(ms.drop_last() =~= Seq::<Ty>::empty());
        assert(add_members(b, ms.drop_last()) == b);
        assert(fold_model(b.collected(), ms.drop_last()) == b.collected());
        assert(add_members(b, ms) == add_simple(b, ms.last()));
    }
}

proof fn lemma_fold_append(x: UnionModel, a: Seq<Ty>, b: Seq<Ty>)
    ensures
        fold_model(x, a + b) == fold_model(fold_model(x, a), b),
    decreases b.len(),
{
    if b.len() == 0 {
        assert(a + b =~= a);
    } else {
        assert((a + b).drop_last() =~= a + b.drop_last());
        assert((a + b).last() == b.last());
        lemma_fold_append(x, a, b.drop_last());
    }
}

proof fn lemma_fold_lit_seq(x: UnionModel, k: LiteralKind, s: Seq<u64>)
    requires
        get_lit(x, k) == LitModel::Vacant,
        s.len() > 0,
        s.no_duplicates(),
    ensures
        fold_model(x, s.map_values(|v: u64| literal_of(k, v))) == set_lit(x, k, LitModel::Literals(s)),
    decreases s.len(),
{
    let ms = s.map_values(|v: u64| literal_of(k, v));
    let d = s.drop_last();
    let v = s.last();
    assert(ms.drop_last() =~= d.map_values(|v: u64| literal_of(k, v)));
    assert(ms.last() == literal_of(k, v));
    if d.len() == 0 {
        assert(ms.drop_last() =~= Seq::<Ty>::empty());
        assert(s =~= seq![v]);
    } else {
        assert(d.no_duplicates()) by {
            assert forall|i: int, j: int| 0 <= i < d.len() && 0 <= j < d.len() && i != j implies d[i] != d[j] by {
                assert(d[i] == s[i] && d[j] == s[j]);
            }
        }
        lemma_fold_lit_seq(x, k, d);
        assert(!d.contains(v)) by {
            if d.contains(v) {
                let i = choose|i: int| 0 <= i < d.len() && d[i] == v;
                assert(s[i] == s[s.len() - 1]);
            }
        }
        assert(d.push(v) =~= s);
    }
}

proof fn lemma_fold_lits(x: UnionModel, k: LiteralKind, l: LitModel)
    requires
        get_lit(x, k) == LitModel::Vacant,
        lit_wf(l),
    ensures
        fold_model(x, lit_members(l, k)) == set_lit(x, k, l),
{
    match l {
        LitModel::Vacant => {
            assert(lit_members(l, k).len() == 0);
            assert(fold_model(x, lit_members(l, k)) == x);
            match k {
                LiteralKind::String => assert(set_lit(x, k, l) == x),
                LiteralKind::Number => assert(set_lit(x, k, l) == x),
                LiteralKind::BigInt => assert(set_lit(x, k, l) == x),
                LiteralKind::Symbol => assert(set_lit(x, k, l) == x),
            }
        },
        LitModel::Any => {
            let ms = seq![any_of(k)];
            assert(ms.drop_last() =~= Seq::<Ty>::empty());
            assert(fold_model(x, ms.drop_last()) == x);
            assert(fold_model(x, ms) == model_add(x, any_of(k)));
            match k {
                LiteralKind::String => assert(model_add(x, any_of(k)) == set_lit(x, k, l)),
                LiteralKind::Number => assert(model_add(x, any_of(k)) == set_lit(x, k, l)),
                LiteralKind::BigInt => assert(model_add(x, any_of(k)) == set_lit(x, k, l)),
                LiteralKind::Symbol => assert(model_add(x, any_of(k)) == set_lit(x, k, l)),
            }
        },
        LitModel::Literals(s) => lemma_fold_lit_seq(x, k, s),
    }
}

proof fn lemma_fold_opt(x: UnionModel, c: bool, t: Ty)
    ensures
        fold_model(x, if c { seq![t] } else { seq![] }) == if c {
            model_add(x, t)
        } else {
            x
        },
{
    if c {
        assert(seq![t].drop_last() =~= Seq::<Ty>::empty());
        assert(fold_model(x, Seq::<Ty>::empty()) == x);
        assert(fold_model(x, seq![t]) == model_add(fold_model(x, seq![t].drop_last()), t));
    } else {
        assert(fold_model(x, Seq::<Ty>::empty()) == x);
    }
}

proof fn lemma_fold_complex(x: UnionModel, c: Seq<Ty>)
    requires
        x.complex.len() == 0,
        c.no_duplicates(),
        forall|i: int| 0 <= i < c.len() ==> is_complex(#[trigger] c[i]),
    ensures
        fold_model(x, c) == (UnionModel { complex: c, ..x }),
    decreases c.len(),
{
    if c.len() == 0 {
        assert(x.complex =~= c);
    } else {
        let d = c.drop_last();
        assert(d.no_duplicates()) by {
            assert forall|i: int, j: int| 0 <= i < d.len() && 0 <= j < d.len() && i != j implies d[i] != d[j] by {
                assert(d[i] == c[i] && d[j] == c[j]);
            }
        }
        assert forall|i: int| 0 <= i < d.len() implies is_complex(#[trigger] d[i]) by {
            assert(d[i] == c[i]);
        }
        lemma_fold_complex(x, d);
        assert(is_complex(c.last()));
        assert(!d.contains(c.last())) by {
            if d.contains(c.last()) {
                let i = choose|i: int| 0 <= i < d.len() && d[i] == c.last();
                assert(c[i] == c[c.len() - 1]);
            }
        }
        assert(d.push(c.last()) =~= c);
    }
}

proof fn lemma_fold_unresolved(x: UnionModel, r: Seq<u64>)
    requires
        x.unresolved.len() == 0,
    ensures
        fold_model(x, r.map_values(|v: u64| Ty::Unresolved(v))) == (UnionModel { unresolved: r, ..x }),
    decreases r.len(),
{
    let ms = r.map_values(|v: u64| Ty::Unresolved(v));
    if r.len() == 0 {
        assert(x.unresolved =~= r);
    } else {
        let d = r.drop_last();
        assert(ms.drop_last() =~= d.map_values(|v: u64| Ty::Unresolved(v)));
        lemma_fold_unresolved(x, d);
        assert(d.push(r.last()) =~= r);
    }
}

/// Adding the members of a canonical union, in enumeration order, to an
/// empty union rebuilds it.
proof fn lemma_fold_members(u: UnionModel)
    requires
        union_wf(u),
    ensures
        fold_model(empty_model(), members(u)) == u,
{
    let x0 = empty_model();
    let l1 = lit_members(u.string, LiteralKind::String);
    let l2 = lit_members(u.number, LiteralKind::Number);
    let l3 = lit_members(u.bigint, LiteralKind::BigInt);
    let l4 = lit_members(u.symbol, LiteralKind::Symbol);
    let f = flag_members(u);
    let o = bool_members(u.boolean);
    let r = u.unresolved.map_values(|x: u64| Ty::Unresolved(x));
    lemma_fold_append(x0, l1, l2);
    lemma_fold_append(x0, l1 + l2, l3);
    lemma_fold_append(x0, l1 + l2 + l3, l4);
    lemma_fold_append(x0, l1 + l2 + l3 + l4, f);
    lemma_fold_append(x0, l1 + l2 + l3 + l4 + f, o);
    lemma_fold_append(x0, l1 + l2 + l3 + l4 + f + o, u.complex);
    lemma_fold_append(x0, l1 + l2 + l3 + l4 + f + o + u.complex, r);
    lemma_fold_lits(x0, LiteralKind::String, u.string);
    let x1 = set_lit(x0, LiteralKind::String, u.string);
    lemma_fold_lits(x1, LiteralKind::Number, u.number);
    let x2 = set_lit(x1, LiteralKind::Number, u.number);
    lemma_fold_lits(x2, LiteralKind::BigInt, u.bigint);
    let x3 = set_lit(x2, LiteralKind::BigInt, u.bigint);
    lemma_fold_lits(x3, LiteralKind::Symbol, u.symbol);
    let x4 = set_lit(x3, LiteralKind::Symbol, u.symbol);
    let fa = if u.object { seq![Ty::Object] } else { seq![] };
    let fb = if u.void { seq![Ty::Void] } else { seq![] };
    let fc = if u.null { seq![Ty::Null] } else { seq![] };
    let fd = if u.undefined { seq![Ty::Undefined] } else { seq![] };
    lemma_fold_append(x4, fa, fb);
    lemma_fold_append(x4, fa + fb, fc);
    lemma_fold_append(x4, fa + fb + fc, fd);
    lemma_fold_opt(x4, u.object, Ty::Object);
    let y1 = if u.object { model_add(x4, Ty::Object) } else { x4 };
    lemma_fold_opt(y1, u.void, Ty::Void);
    let y2 = if u.void { model_add(y1, Ty::Void) } else { y1 };
    lemma_fold_opt(y2, u.null, Ty::Null);
    let y3 = if u.null { model_add(y2, Ty::Null) } else { y2 };
    lemma_fold_opt(y3, u.undefined, Ty::Undefined);
    let x5 = fold_model(x4, f);
    assert(x5 == UnionModel { object: u.object, void: u.void, null: u.null, undefined: u.undefined, ..x4 });
    let x6 = UnionModel { boolean: u.boolean, ..x5 };
    assert(fold_model(x5, o) == x6) by {
        if u.boolean.0 && u.boolean.1 {
            lemma_fold_opt(x5, true, Ty::Boolean);
        } else if u.boolean.0 {
            lemma_fold_opt(x5, true, Ty::BooleanLiteral(true));
        } else if u.boolean.1 {
            lemma_fold_opt(x5, true, Ty::BooleanLiteral(false));
        }
    }
    lemma_fold_complex(x6, u.complex);
    let x7 = UnionModel { complex: u.complex, ..x6 };
    lemma_fold_unresolved(x7, u.unresolved);
}

proof fn lemma_add_all_members(m: Tables, b: BuildState, ms: Seq<Ty>)
    requires
        forall|i: int| 0 <= i < ms.len() ==> is_member(#[trigger] ms[i]),
    ensures
        add_all(m, b, ms) == add_members(b, ms),
    decreases ms.len(),
{
    if ms.len() > 0 {
        let d = ms.drop_last();
        assert forall|i: int| 0 <= i < d.len() implies is_member(#[trigger] d[i]) by {
            assert(d[i] == ms[i]);
        }
        lemma_add_all_members(m, b, d);
        assert(is_member(ms.last()));
    }
}

/// Feeding the enumeration of a canonical, non-empty union back through a
/// fresh builder reproduces that union.
pub proof fn law_round_trip(m: Tables, u: UnionModel)
    requires
        union_wf(u),
        members(u).len() > 0,
    ensures
        add_all(m, BuildState::Never, members(u)) == BuildState::Compound(u),
{
    crate::union::lemma_members_are_members(u);
    lemma_add_all_members(m, BuildState::Never, members(u));
    lemma_add_members_compound(BuildState::Never, members(u));
    lemma_fold_members(u);
}

/// The union of `Never` and `x` is `x` itself when `x` is `Never`, one of
/// the absorbing types, or a stored union.
pub proof fn law_never_identity_union(m: Tables, x: Ty)
    requires
        tables_wf(m),
        valid(m, x),
        x == Ty::Never || x == Ty::Error || x == Ty::Any || x == Ty::Unknown || x is Union,
    ensures
        denotes(m, x, add_all(m, BuildState::Never, seq![Ty::Never, x])),
{
    law_never_identity(m, x);
    assert(seq![x].drop_last() =~= Seq::<Ty>::empty());
    assert(add_all(m, BuildState::Never, Seq::<Ty>::empty()) == BuildState::Never);
    assert(add_all(m, BuildState::Never, seq![x]) == add_spec(
        m,
        add_all(m, BuildState::Never, seq![x].drop_last()),
        x,
    ));
    if let Ty::Union(id) = x {
        let u = m.unions[id as int];
        assert(union_wf(u) && members(u).len() > 0);
        crate::union::lemma_members_are_members(u);
        lemma_add_members_compound(BuildState::Never, members(u));
        lemma_fold_members(u);
    }
}

pub open spec fn lit_fold(a: LitModel, s: Seq<u64>) -> LitModel
    decreases s.len(),
{
    if s.len() == 0 {
        a
    } else {
        lit_add(lit_fold(a, s.drop_last()), s.last())
    }
}

pub open spec fn join_lit(a: LitModel, b: LitModel) -> LitModel {
    match b {
        LitModel::Vacant => a,
        LitModel::Any => LitModel::Any,
        LitModel::Literals(s) => lit_fold(a, s),
    }
}

pub open spec fn cadd(c: Seq<Ty>, t: Ty) -> Seq<Ty> {
    if c.contains(t) {
        c
    } else {
        c.push(t)
    }
}

pub open spec fn cfold(c: Seq<Ty>, s: Seq<Ty>) -> Seq<Ty>
    decreases s.len(),
{
    if s.len() == 0 {
        c
    } else {
        cadd(cfold(c, s.drop_last()), s.last())
    }
}

/// The members of `u` added to `x`, stated per kind.
pub open spec fn join(x: UnionModel, u: UnionModel) -> UnionModel {
    UnionModel {
        string: join_lit(x.string, u.string),
        number: join_lit(x.number, u.number),
        bigint: join_lit(x.bigint, u.bigint),
        symbol: join_lit(x.symbol, u.symbol),
        object: x.object || u.object,
        void: x.void || u.void,
        null: x.null || u.null,
        undefined: x.undefined || u.undefined,
        boolean: (x.boolean.0 || u.boolean.0, x.boolean.1 || u.boolean.1),
        complex: cfold(x.complex, u.complex),
        unresolved: x.unresolved + u.unresolved,
    }
}

proof fn lemma_fold_lit_seq_gen(x: UnionModel, k: LiteralKind, s: Seq<u64>)
    ensures
        fold_model(x, s.map_values(|v: u64| literal_of(k, v))) == set_lit(x, k, lit_fold(get_lit(x, k), s)),
    decreases s.len(),
{
    let ms = s.map_values(|v: u64| literal_of(k, v));
    if s.len() == 0 {
        assert(fold_model(x, ms) == x);
        match k {
            LiteralKind::String => assert(set_lit(x, k, get_lit(x, k)) == x),
            LiteralKind::Number => assert(set_lit(x, k, get_lit(x, k)) == x),
            LiteralKind::BigInt => assert(set_lit(x, k, get_lit(x, k)) == x),
            LiteralKind::Symbol => assert(set_lit(x, k, get_lit(x, k)) == x),
        }
    } else {
        let d = s.drop_last();
        assert(ms.drop_last() =~= d.map_values(|v: u64| literal_of(k, v)));
        assert(ms.last() == literal_of(k, s.last()));
        lemma_fold_lit_seq_gen(x, k, d);
    }
}

proof fn lemma_fold_lits_gen(x: UnionModel, k: LiteralKind, l: LitModel)
    ensures
        fold_model(x, lit_members(l, k)) == set_lit(x, k, join_lit(get_lit(x, k), l)),
{
    match l {
        LitModel::Vacant => {
            assert(fold_model(x, lit_members(l, k)) == x);
            match k {
                LiteralKind::String => assert(set_lit(x, k, get_lit(x, k)) == x),
                LiteralKind::Number => assert(set_lit(x, k, get_lit(x, k)) == x),
                LiteralKind::BigInt => assert(set_lit(x, k, get_lit(x, k)) == x),
                LiteralKind::Symbol => assert(set_lit(x, k, get_lit(x, k)) == x),
            }
        },
        LitModel::Any => {
            let ms = seq![any_of(k)];
            assert(ms.drop_last() =~= Seq::<Ty>::empty());
            assert(fold_model(x, ms.drop_last()) == x);
            assert(fold_model(x, ms) == model_add(x, any_of(k)));
        },
        LitModel::Literals(s) => lemma_fold_lit_seq_gen(x, k, s),
    }
}

proof fn lemma_fold_complex_gen(x: UnionModel, c: Seq<Ty>)
    requires
        forall|i: int| 0 <= i < c.len() ==> is_complex(#[trigger] c[i]),
    ensures
        fold_model(x, c) == (UnionModel { complex: cfold(x.complex, c), ..x }),
    decreases c.len(),
{
    if c.len() > 0 {
        let d = c.drop_last();
        assert forall|i: int| 0 <= i < d.len() implies is_complex(#[trigger] d[i]) by {
            assert(d[i] == c[i]);
        }
        lemma_fold_complex_gen(x, d);
        assert(is_complex(c.last()));
    }
}

proof fn lemma_fold_unresolved_gen(x: UnionModel, r: Seq<u64>)
    ensures
        fold_model(x, r.map_values(|v: u64| Ty::Unresolved(v))) == (UnionModel {
            unresolved: x.unresolved + r,
            ..x
        }),
    decreases r.len(),
{
    let ms = r.map_values(|v: u64| Ty::Unresolved(v));
    if r.len() == 0 {
        assert(x.unresolved + r =~= x.unresolved);
    } else {
        let d = r.drop_last();
        assert(ms.drop_last() =~= d.map_values(|v: u64| Ty::Unresolved(v)));
        lemma_fold_unresolved_gen(x, d);
        assert((x.unresolved + d).push(r.last()) =~= x.unresolved + r);
    }
}

/// Adding the members of a canonical union to any union joins the two.
proof fn lemma_fold_members_join(x: UnionModel, u: UnionModel)
    requires
        union_wf(u),
    ensures
        fold_model(x, members(u)) == join(x, u),
{
    let l1 = lit_members(u.string, LiteralKind::String);
    let l2 = lit_members(u.number, LiteralKind::Number);
    let l3 = lit_members(u.bigint, LiteralKind::BigInt);
    let l4 = lit_members(u.symbol, LiteralKind::Symbol);
    let f = flag_members(u);
    let o = bool_members(u.boolean);
    let r = u.unresolved.map_values(|x: u64| Ty::Unresolved(x));
    lemma_fold_append(x, l1, l2);
    lemma_fold_append(x, l1 + l2, l3);
    lemma_fold_append(x, l1 + l2 + l3, l4);
    lemma_fold_append(x, l1 + l2 + l3 + l4, f);
    lemma_fold_append(x, l1 + l2 + l3 + l4 + f, o);
    lemma_fold_append(x, l1 + l2 + l3 + l4 + f + o, u.complex);
    lemma_fold_append(x, l1 + l2 + l3 + l4 + f + o + u.complex, r);
    lemma_fold_lits_gen(x, LiteralKind::String, u.string);
    let x1 = set_lit(x, LiteralKind::String, join_lit(x.string, u.string));
    lemma_fold_lits_gen(x1, LiteralKind::Number, u.number);
    let x2 = set_lit(x1, LiteralKind::Number, join_lit(x.number, u.number));
    lemma_fold_lits_gen(x2, LiteralKind::BigInt, u.bigint);
    let x3 = set_lit(x2, LiteralKind::BigInt, join_lit(x.bigint, u.bigint));
    lemma_fold_lits_gen(x3, LiteralKind::Symbol, u.symbol);
    let x4 = set_lit(x3, LiteralKind::Symbol, join_lit(x.symbol, u.symbol));
    let fa = if u.object { seq![Ty::Object] } else { seq![] };
    let fb = if u.void { seq![Ty::Void] } else { seq![] };
    let fc = if u.null { seq![Ty::Null] } else { seq![] };
    let fd = if u.undefined { seq![Ty::Undefined] } else { seq![] };
    lemma_fold_append(x4, fa, fb);
    lemma_fold_append(x4, fa + fb, fc);
    lemma_fold_append(x4, fa + fb + fc, fd);
    lemma_fold_opt(x4, u.object, Ty::Object);
    let y1 = if u.object { model_add(x4, Ty::Object) } else { x4 };
    lemma_fold_opt(y1, u.void, Ty::Void);
    let y2 = if u.void { model_add(y1, Ty::Void) } else { y1 };
    lemma_fold_opt(y2, u.null, Ty::Null);
    let y3 = if u.null { model_add(y2, Ty::Null) } else { y2 };
    lemma_fold_opt(y3, u.undefined, Ty::Undefined);
    let x5 = fold_model(x4, f);
    assert(x5 == UnionModel {
        object: x.object || u.object,
        void: x.void || u.void,
        null: x.null || u.null,
        undefined: x.undefined || u.undefined,
        ..x4
    });
    let x6 = UnionModel { boolean: (x.boolean.0 || u.boolean.0, x.boolean.1 || u.boolean.1), ..x5 };
    assert(fold_model(x5, o) == x6) by {
        if u.boolean.0 && u.boolean.1 {
            lemma_fold_opt(x5, true, Ty::Boolean);
        } else if u.boolean.0 {
            lemma_fold_opt(x5, true, Ty::BooleanLiteral(true));
        } else if u.boolean.1 {
            lemma_fold_opt(x5, true, Ty::BooleanLiteral(false));
        } else {
            lemma_fold_opt(x5, false, Ty::Boolean);
        }
    }
    lemma_fold_complex_gen(x6, u.complex);
    let x7 = UnionModel { complex: cfold(x.complex, u.complex), ..x6 };
    lemma_fold_unresolved_gen(x7, u.unresolved);
}

pub open spec fn lit_holds(l: LitModel, v: u64) -> bool {
    match l {
        LitModel::Any => true,
        LitModel::Literals(r) => r.contains(v),
        LitModel::Vacant => false,
    }
}

proof fn lemma_lit_holds_add(l: LitModel, v: u64, w: u64)
    ensures
        lit_holds(l, v) ==> lit_add(l, v) == l,
        lit_holds(l, v) ==> lit_holds(lit_add(l, w), v),
        lit_holds(lit_add(l, v), v),
{
    match l {
        LitModel::Literals(r) => {
            if r.contains(v) {
                let i = choose|i: int| 0 <= i < r.len() && r[i] == v;
                assert(r.push(w)[i] == v);
            }
            assert(r.push(v)[r.len() as int] == v);
        },
        LitModel::Vacant => {
            assert(seq![v][0] == v);
        },
        _ => {},
    }
}

proof fn lemma_lit_fold_holds(a: LitModel, s: Seq<u64>, i: int)
    requires
        0 <= i < s.len(),
    ensures
        lit_holds(lit_fold(a, s), s[i]),
    decreases s.len(),
{
    let d = s.drop_last();
    lemma_lit_holds_add(lit_fold(a, d), s[i], s.last());
    if i < s.len() - 1 {
        assert(d[i] == s[i]);
        lemma_lit_fold_holds(a, d, i);
    }
}

proof fn lemma_cfold_contains(c: Seq<Ty>, s: Seq<Ty>, i: int)
    requires
        0 <= i < s.len(),
    ensures
        cfold(c, s).contains(s[i]),
    decreases s.len(),
{
    let d = s.drop_last();
    let f = cfold(c, d);
    if i < s.len() - 1 {
        assert(d[i] == s[i]);
        lemma_cfold_contains(c, d, i);
        let j = choose|j: int| 0 <= j < f.len() && f[j] == s[i];
        assert(cadd(f, s.last())[j] == s[i]);
    } else {
        if !f.contains(s.last()) {
            assert(f.push(s.last())[f.len() as int] == s.last());
        }
    }
}

proof fn lemma_join_lit_add(a: LitModel, b: LitModel, v: u64)
    ensures
        join_lit(a, lit_add(b, v)) == lit_add(join_lit(a, b), v),
{
    match b {
        LitModel::Vacant => {
            assert(seq![v].drop_last() =~= Seq::<u64>::empty());
            assert(lit_fold(a, Seq::<u64>::empty()) == a);
            assert(lit_fold(a, seq![v]) == lit_add(lit_fold(a, seq![v].drop_last()), v));
        },
        LitModel::Literals(s) => {
            if s.contains(v) {
                let i = choose|i: int| 0 <= i < s.len() && s[i] == v;
                lemma_lit_fold_holds(a, s, i);
                lemma_lit_holds_add(lit_fold(a, s), v, v);
            } else {
                assert(s.push(v).drop_last() =~= s);
            }
        },
        _ => {},
    }
}

/// Adding a member after joining is joining after adding it.
proof fn lemma_join_add(x: UnionModel, u: UnionModel, t: Ty)
    requires
        is_member(t),
    ensures
        join(x, model_add(u, t)) == model_add(join(x, u), t),
{
    match t {
        Ty::StringLiteral(v) => lemma_join_lit_add(x.string, u.string, v),
        Ty::NumericLiteral(v) => lemma_join_lit_add(x.number, u.number, v),
        Ty::BigIntLiteral(v) => lemma_join_lit_add(x.bigint, u.bigint, v),
        Ty::UniqueSymbol(v) => lemma_join_lit_add(x.symbol, u.symbol, v),
        Ty::Unresolved(r) => {
            assert(x.unresolved + u.unresolved.push(r) =~= (x.unresolved + u.unresolved).push(r));
        },
        _ => {
            if is_complex(t) {
                if u.complex.contains(t) {
                    let i = choose|i: int| 0 <= i < u.complex.len() && u.complex[i] == t;
                    lemma_cfold_contains(x.complex, u.complex, i);
                } else {
                    assert(u.complex.push(t).drop_last() =~= u.complex);
                }
            }
        },
    }
}

proof fn lemma_join_empty(x: UnionModel)
    ensures
        join(x, empty_model()) == x,
{
    assert(x.unresolved + Seq::<u64>::empty() =~= x.unresolved);
}

/// Re-adding the members collected in `r` to the builder state `s`.
pub open spec fn combine(s: BuildState, r: BuildState) -> BuildState {
    if s.is_top() {
        s
    } else {
        match r {
            BuildState::Compound(u) => add_members(s, members(u)),
            BuildState::Never => s,
            _ => r,
        }
    }
}

proof fn lemma_combine_compound(s: BuildState, u: UnionModel)
    requires
        !s.is_top(),
        union_wf(u),
        members(u).len() > 0,
    ensures
        combine(s, BuildState::Compound(u)) == BuildState::Compound(join(s.collected(), u)),
{
    crate::union::lemma_members_are_members(u);
    lemma_add_members_compound(s, members(u));
    lemma_fold_members_join(s.collected(), u);
}

proof fn lemma_combine_simple(s: BuildState, r: BuildState, t: Ty)
    requires
        is_member(t),
        build_wf(r),
    ensures
        combine(s, add_simple(r, t)) == add_simple(combine(s, r), t),
{
    if !s.is_top() && !r.is_top() {
        let u = r.collected();
        assert(union_wf(empty_model()));
        lemma_model_add_wf(u, t);
        lemma_combine_compound(s, model_add(u, t));
        lemma_join_add(s.collected(), u, t);
        if let BuildState::Compound(ur) = r {
            lemma_combine_compound(s, ur);
        } else {
            lemma_join_empty(s.collected());
            if let BuildState::Compound(us) = s {
            } else {
                assert(s.collected() == empty_model());
            }
        }
    }
}

proof fn lemma_add_members_wf(b: BuildState, ms: Seq<Ty>)
    requires
        build_wf(b),
        forall|i: int| 0 <= i < ms.len() ==> is_member(#[trigger] ms[i]),
    ensures
        build_wf(add_members(b, ms)),
    decreases ms.len(),
{
    if ms.len() > 0 {
        let d = ms.drop_last();
        assert forall|i: int| 0 <= i < d.len() implies is_member(#[trigger] d[i]) by {
            assert(d[i] == ms[i]);
        }
        lemma_add_members_wf(b, d);
        let c = add_members(b, d);
        assert(is_member(ms.last()));
        assert(union_wf(empty_model()));
        if !c.is_top() {
            lemma_model_add_wf(c.collected(), ms.last());
        }
    }
}

proof fn lemma_combine_members(s: BuildState, r: BuildState, ms: Seq<Ty>)
    requires
        build_wf(r),
        forall|i: int| 0 <= i < ms.len() ==> is_member(#[trigger] ms[i]),
    ensures
        combine(s, add_members(r, ms)) == add_members(combine(s, r), ms),
    decreases ms.len(),
{
    if ms.len() == 0 {
    } else {
        let d = ms.drop_last();
        assert forall|i: int| 0 <= i < d.len() implies is_member(#[trigger] d[i]) by {
            assert(d[i] == ms[i]);
        }
        lemma_combine_members(s, r, d);
        lemma_add_members_wf(r, d);
        assert(is_member(ms.last()));
        lemma_combine_simple(s, add_members(r, d), ms.last());
    }
}

proof fn lemma_add_spec_wf(m: Tables, b: BuildState, t: Ty)
    requires
        tables_wf(m),
        valid(m, t),
        build_wf(b),
    ensures
        build_wf(add_spec(m, b, t)),
    decreases rank(t),
{
    if !b.is_top() && !is_escalating(t) {
        match t {
            Ty::Union(id) => {
                let u = m.unions[id as int];
                assert(union_wf(u));
                crate::union::lemma_members_are_members(u);
                lemma_add_members_wf(b, members(u));
            },
            Ty::Instance(i) => {
                let r = m.instances[i as int];
                assert(valid(m, r) && rank(r) < 2);
                lemma_add_spec_wf(m, b, r);
            },
            _ => {
                if is_member(t) {
                    assert(union_wf(empty_model()));
                    lemma_model_add_wf(b.collected(), t);
                }
            },
        }
    }
}

proof fn lemma_combine_step(m: Tables, s: BuildState, r: BuildState, t: Ty)
    requires
        tables_wf(m),
        valid(m, t),
        build_wf(r),
    ensures
        combine(s, add_spec(m, r, t)) == add_spec(m, combine(s, r), t),
    decreases rank(t),
{
    if !s.is_top() && !r.is_top() {
        lemma_add_members_not_top(s, members(r.collected()));
        if !is_escalating(t) {
            match t {
                Ty::Union(id) => {
                    let u = m.unions[id as int];
                    assert(union_wf(u));
                    crate::union::lemma_members_are_members(u);
                    lemma_combine_members(s, r, members(u));
                },
                Ty::Instance(i) => {
                    let x = m.instances[i as int];
                    assert(valid(m, x) && rank(x) < 2);
                    lemma_combine_step(m, s, r, x);
                },
                _ => {
                    if is_member(t) {
                        lemma_combine_simple(s, r, t);
                    }
                },
            }
        }
    }
}

proof fn lemma_combine_all(m: Tables, s: BuildState, ts: Seq<Ty>)
    requires
        tables_wf(m),
        forall|i: int| 0 <= i < ts.len() ==> valid(m, #[trigger] ts[i]),
    ensures
        add_all(m, s, ts) == combine(s, add_all(m, BuildState::Never, ts)),
        build_wf(add_all(m, BuildState::Never, ts)),
    decreases ts.len(),
{
    if ts.len() > 0 {
        let d = ts.drop_last();
        assert forall|i: int| 0 <= i < d.len() implies valid(m, #[trigger] d[i]) by {
            assert(d[i] == ts[i]);
        }
        lemma_combine_all(m, s, d);
        let r = add_all(m, BuildState::Never, d);
        lemma_combine_step(m, s, r, ts.last());
        lemma_add_spec_wf(m, r, ts.last());
    }
}

proof fn lemma_add_denoted(m: Tables, s: BuildState, u: Ty, r: BuildState)
    requires
        denotes(m, u, r),
    ensures
        add_spec(m, s, u) == combine(s, r),
{
}

/// Flattening: adding `a` and then the union of `b` and `c` gives what
/// adding `a`, `b` and `c` gives.
pub proof fn law_flattening(m: Tables, a: Ty, b: Ty, c: Ty, u: Ty)
    requires
        tables_wf(m),
        valid(m, a),
        valid(m, b),
        valid(m, c),
        denotes(m, u, add_all(m, BuildState::Never, seq![b, c])),
    ensures
        add_all(m, BuildState::Never, seq![a, u]) == add_all(m, BuildState::Never, seq![a, b, c]),
{
    let n = BuildState::Never;
    let sa = add_spec(m, n, a);
    assert(seq![a, u].drop_last() =~= seq![a]);
    assert(seq![a, b, c].drop_last() =~= seq![a, b]);
    assert(seq![a, b].drop_last() =~= seq![a]);
    assert(seq![a].drop_last() =~= Seq::<Ty>::empty());
    assert(seq![b, c].drop_last() =~= seq![b]);
    assert(seq![b].drop_last() =~= Seq::<Ty>::empty());
    assert(add_all(m, n, Seq::<Ty>::empty()) == n);
    assert(add_all(m, sa, Seq::<Ty>::empty()) == sa);
    assert(add_all(m, n, seq![a]) == sa);
    assert(add_all(m, n, seq![a, u]) == add_spec(m, sa, u));
    assert(add_all(m, n, seq![a, b]) == add_spec(m, sa, b));
    assert(add_all(m, n, seq![a, b, c]) == add_spec(m, add_spec(m, sa, b), c));
    assert(add_all(m, sa, seq![b]) == add_spec(m, sa, b));
    assert(add_all(m, sa, seq![b, c]) == add_spec(m, add_spec(m, sa, b), c));
    lemma_add_denoted(m, sa, u, add_all(m, n, seq![b, c]));
    lemma_combine_all(m, sa, seq![b, c]);
}

} // verus!
