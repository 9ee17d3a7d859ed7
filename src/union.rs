use vstd::prelude::*;


use crate::analyzer::{denotes, extends, tables_wf, valid, Analyzer, Tables};
use crate::ty::{any_of, is_complex, is_escalating, is_member, literal_of, rank, LiteralKind, Ty};

verus! {

/// The widening lattice of one primitive kind: nothing yet, a finite set of
/// literals (kept in insertion order, without duplicates), or every value of
/// the kind.
#[derive(Debug, PartialEq)]
pub enum LiteralAble<L> {
    Vacant,
    Any,
    Literals(Vec<L>),
}

/// Abstract value of a `LiteralAble`.
pub enum LitModel {
    Vacant,
    Any,
    Literals(Seq<u64>),
}

impl View for LiteralAble<u64> {
    type V = LitModel;

    open spec fn view(&self) -> LitModel {
        match self {
            LiteralAble::Vacant => LitModel::Vacant,
            LiteralAble::Any => LitModel::Any,
            LiteralAble::Literals(v) => LitModel::Literals(v@),
        }
    }
}

/// Adding one literal: `Any` absorbs it, a set keeps one copy of each value.
pub open spec fn lit_add(m: LitModel, x: u64) -> LitModel {
    match m {
        LitModel::Vacant => LitModel::Literals(seq![x]),
        LitModel::Any => LitModel::Any,
        LitModel::Literals(s) => if s.contains(x) {
            m
        } else {
            LitModel::Literals(s.push(x))
        },
    }
}

/// The types a literal lattice stands for, in enumeration order.
pub open spec fn lit_members(m: LitModel, k: LiteralKind) -> Seq<Ty> {
    match m {
        LitModel::Vacant => seq![],
        LitModel::Any => seq![any_of(k)],
        LitModel::Literals(s) => s.map_values(|v: u64| literal_of(k, v)),
    }
}

/// A literal set is never empty and holds each value once.
pub open spec fn lit_wf(m: LitModel) -> bool {
    match m {
        LitModel::Literals(s) => s.len() > 0 && s.no_duplicates(),
        _ => true,
    }
}

fn contains_u64(v: &Vec<u64>, x: u64) -> (r: bool)
    ensures
        r == v@.contains(x),
{
    let mut i: usize = 0;
    while i < v.len()
        invariant
            i <= v.len(),
            forall|j: int| 0 <= j < i ==> v@[j] != x,
        decreases v.len() - i,
    {
        if v[i] == x {
            return true;
        }
        i += 1;
    }
    false
}

fn contains_ty(v: &Vec<Ty>, x: Ty) -> (r: bool)
    ensures
        r == v@.contains(x),
{
    let mut i: usize = 0;
    while i < v.len()
        invariant
            i <= v.len(),
            forall|j: int| 0 <= j < i ==> v@[j] != x,
        decreases v.len() - i,
    {
        if v[i] == x {
            return true;
        }
        i += 1;
    }
    false
}

impl LiteralAble<u64> {
    pub fn add(&mut self, literal: u64)
        ensures
            final(self)@ == lit_add(old(self)@, literal),
    {
        match self {
            LiteralAble::Vacant => {
                let mut set: Vec<u64> = Vec::new();
                set.push(literal);
                *self = LiteralAble::Literals(set);
            },
            LiteralAble::Any => {},
            LiteralAble::Literals(set) => {
                if !contains_u64(set, literal) {
                    set.push(literal);
                }
            },
        }
    }

    /// The concrete types this lattice currently stands for.
    pub fn for_each(&self, kind: LiteralKind) -> (r: Vec<Ty>)
        ensures
            r@ == lit_members(self@, kind),
    {
        let mut out: Vec<Ty> = Vec::new();
        match self {
            LiteralAble::Vacant => {},
            LiteralAble::Any => {
                out.push(kind.any_ty());
            },
            LiteralAble::Literals(set) => {
                let mut i: usize = 0;
                while i < set.len()
                    invariant
                        i <= set@.len(),
                        out@ == set@.take(i as int).map_values(|v: u64| literal_of(kind, v)),
                    decreases set.len() - i,
                {
                    out.push(kind.literal(set[i]));
                    i += 1;
                    assert(set@.take(i as int).drop_last() =~= set@.take(i - 1));
                }
                assert(set@.take(set@.len() as int) =~= set@);
            },
        }
        out
    }
}

/// Canonical storage of a flattened set of member types, partitioned by kind.
#[derive(Debug, PartialEq)]
pub struct UnionType {
    pub string: LiteralAble<u64>,
    pub number: LiteralAble<u64>,
    pub bigint: LiteralAble<u64>,
    pub symbol: LiteralAble<u64>,
    pub object: bool,
    pub void: bool,
    pub null: bool,
    pub undefined: bool,
    /// (has_true, has_false)
    pub boolean: (bool, bool),
    /// Complex shapes, each once.
    pub complex: Vec<Ty>,
    /// Unresolved placeholders in insertion order, never deduplicated.
    pub unresolved: Vec<u64>,
}

/// Abstract value of a `UnionType`.
pub struct UnionModel {
    pub string: LitModel,
    pub number: LitModel,
    pub bigint: LitModel,
    pub symbol: LitModel,
    pub object: bool,
    pub void: bool,
    pub null: bool,
    pub undefined: bool,
    pub boolean: (bool, bool),
    pub complex: Seq<Ty>,
    pub unresolved: Seq<u64>,
}

impl View for UnionType {
    type V = UnionModel;

    open spec fn view(&self) -> UnionModel {
        UnionModel {
            string: self.string@,
            number: self.number@,
            bigint: self.bigint@,
            symbol: self.symbol@,
            object: self.object,
            void: self.void,
            null: self.null,
            undefined: self.undefined,
            boolean: self.boolean,
            complex: self.complex@,
            unresolved: self.unresolved@,
        }
    }
}

/// The union with no member.
pub open spec fn empty_model() -> UnionModel {
    UnionModel {
        string: LitModel::Vacant,
        number: LitModel::Vacant,
        bigint: LitModel::Vacant,
        symbol: LitModel::Vacant,
        object: false,
        void: false,
        null: false,
        undefined: false,
        boolean: (false, false),
        complex: seq![],
        unresolved: seq![],
    }
}

/// Canonical form: literal sets and the complex set hold each value once,
/// and the complex set holds complex shapes only.
pub open spec fn union_wf(u: UnionModel) -> bool {
    &&& lit_wf(u.string)
    &&& lit_wf(u.number)
    &&& lit_wf(u.bigint)
    &&& lit_wf(u.symbol)
    &&& u.complex.no_duplicates()
    &&& forall|i: int| 0 <= i < u.complex.len() ==> is_complex(#[trigger] u.complex[i])
}

/// Adding one member type to a union.
pub open spec fn model_add(u: UnionModel, t: Ty) -> UnionModel {
    match t {
        Ty::Void => UnionModel { void: true, ..u },
        Ty::Null => UnionModel { null: true, ..u },
        Ty::Undefined => UnionModel { undefined: true, ..u },
        Ty::Object => UnionModel { object: true, ..u },
        Ty::String => UnionModel { string: LitModel::Any, ..u },
        Ty::Number => UnionModel { number: LitModel::Any, ..u },
        Ty::BigInt => UnionModel { bigint: LitModel::Any, ..u },
        Ty::Symbol => UnionModel { symbol: LitModel::Any, ..u },
        Ty::Boolean => UnionModel { boolean: (true, true), ..u },
        Ty::StringLiteral(v) => UnionModel { string: lit_add(u.string, v), ..u },
        Ty::NumericLiteral(v) => UnionModel { number: lit_add(u.number, v), ..u },
        Ty::BigIntLiteral(v) => UnionModel { bigint: lit_add(u.bigint, v), ..u },
        Ty::UniqueSymbol(v) => UnionModel { symbol: lit_add(u.symbol, v), ..u },
        Ty::BooleanLiteral(b) => if b {
            UnionModel { boolean: (true, u.boolean.1), ..u }
        } else {
            UnionModel { boolean: (u.boolean.0, true), ..u }
        },
        Ty::Unresolved(x) => UnionModel { unresolved: u.unresolved.push(x), ..u },
        _ => if is_complex(t) && !u.complex.contains(t) {
            UnionModel { complex: u.complex.push(t), ..u }
        } else {
            u
        },
    }
}

pub open spec fn flag_members(u: UnionModel) -> Seq<Ty> {
    (if u.object { seq![Ty::Object] } else { seq![] }) + (if u.void { seq![Ty::Void] } else { seq![] })
        + (if u.null { seq![Ty::Null] } else { seq![] }) + (if u.undefined {
        seq![Ty::Undefined]
    } else {
        seq![]
    })
}

/// `(true, true)` is `Boolean`; one half alone is that literal.
pub open spec fn bool_members(b: (bool, bool)) -> Seq<Ty> {
    if b.0 && b.1 {
        seq![Ty::Boolean]
    } else if b.0 {
        seq![Ty::BooleanLiteral(true)]
    } else if b.1 {
        seq![Ty::BooleanLiteral(false)]
    } else {
        seq![]
    }
}

/// The members of a union, in enumeration order: string, number, bigint and
/// symbol lattices, then object, void, null, undefined, then boolean, then
/// complex shapes, then unresolved placeholders.
pub open spec fn members(u: UnionModel) -> Seq<Ty> {
    lit_members(u.string, LiteralKind::String) + lit_members(u.number, LiteralKind::Number)
        + lit_members(u.bigint, LiteralKind::BigInt) + lit_members(u.symbol, LiteralKind::Symbol)
        + flag_members(u) + bool_members(u.boolean) + u.complex + u.unresolved.map_values(
        |x: u64| Ty::Unresolved(x),
    )
}

impl UnionType {
    pub fn new() -> (r: UnionType)
        ensures
            r@ == empty_model(),
    {
        UnionType {
            string: LiteralAble::Vacant,
            number: LiteralAble::Vacant,
            bigint: LiteralAble::Vacant,
            symbol: LiteralAble::Vacant,
            object: false,
            void: false,
            null: false,
            undefined: false,
            boolean: (false, false),
            complex: Vec::new(),
            unresolved: Vec::new(),
        }
    }

    /// Adds one member. Kinds that a union cannot hold are filtered out
    /// earlier by the builder, so they are not admitted here.
    pub fn add(&mut self, ty: Ty)
        requires
            is_member(ty),
        ensures
            final(self)@ == model_add(old(self)@, ty),
    {
        match ty {
            Ty::Void => self.void = true,
            Ty::Null => self.null = true,
            Ty::Undefined => self.undefined = true,
            Ty::Object => self.object = true,
            Ty::String => self.string = LiteralAble::Any,
            Ty::Number => self.number = LiteralAble::Any,
            Ty::BigInt => self.bigint = LiteralAble::Any,
            Ty::Symbol => self.symbol = LiteralAble::Any,
            Ty::Boolean => self.boolean = (true, true),
            Ty::StringLiteral(s) => self.string.add(s),
            Ty::NumericLiteral(n) => self.number.add(n),
            Ty::BigIntLiteral(b) => self.bigint.add(b),
            Ty::UniqueSymbol(s) => self.symbol.add(s),
            Ty::BooleanLiteral(b) => {
                if b {
                    self.boolean.0 = true;
                } else {
                    self.boolean.1 = true;
                }
            },
            Ty::Unresolved(x) => self.unresolved.push(x),
            _ => {
                if !contains_ty(&self.complex, ty) {
                    self.complex.push(ty);
                }
            },
        }
    }

    /// The member types of this union, in enumeration order.
    #[verifier::rlimit(40)]
    pub fn for_each(&self) -> (r: Vec<Ty>)
        ensures
            r@ == members(self@),
    {
        let mut out = self.string.for_each(LiteralKind::String);
        let mut part = self.number.for_each(LiteralKind::Number);
        out.append(&mut part);
        let mut part = self.bigint.for_each(LiteralKind::BigInt);
        out.append(&mut part);
        let mut part = self.symbol.for_each(LiteralKind::Symbol);
        out.append(&mut part);
        let ghost lits = out@;
        if self.object {
            out.push(Ty::Object);
        }
        if self.void {
            out.push(Ty::Void);
        }
        if self.null {
            out.push(Ty::Null);
        }
        if self.undefined {
            out.push(Ty::Undefined);
        }
        assert(out@ =~= lits + flag_members(self@));
        let ghost flags = out@;
        if self.boolean.0 && self.boolean.1 {
            out.push(Ty::Boolean);
        } else if self.boolean.0 {
            out.push(Ty::BooleanLiteral(true));
        } else if self.boolean.1 {
            out.push(Ty::BooleanLiteral(false));
        }
        assert(out@ =~= flags + bool_members(self.boolean));
        let mut i: usize = 0;
        let ghost before = out@;
        while i < self.complex.len()
            invariant
                i <= self.complex@.len(),
                out@ == before + self.complex@.take(i as int),
            decreases self.complex.len() - i,
        {
            out.push(self.complex[i]);
            i += 1;
            assert(self.complex@.take(i as int) =~= self.complex@.take(i - 1).push(
                self.complex@[i - 1],
            ));
        }
        assert(self.complex@.take(self.complex@.len() as int) =~= self.complex@);
        let ghost before = out@;
        let mut i: usize = 0;
        while i < self.unresolved.len()
            invariant
                i <= self.unresolved@.len(),
                out@ == before + self.unresolved@.take(i as int).map_values(
                    |x: u64| Ty::Unresolved(x),
                ),
            decreases self.unresolved.len() - i,
        {
            out.push(Ty::Unresolved(self.unresolved[i]));
            i += 1;
            assert(self.unresolved@.take(i as int).map_values(|x: u64| Ty::Unresolved(x))
                =~= self.unresolved@.take(i - 1).map_values(|x: u64| Ty::Unresolved(x)).push(
                Ty::Unresolved(self.unresolved@[i - 1]),
            ));
        }
        assert(self.unresolved@.take(self.unresolved@.len() as int) =~= self.unresolved@);
        assert(out@ =~= members(self@));
        out
    }
}

/// Abstract state of a `UnionTypeBuilder`.
pub enum BuildState {
    Never,
    Error,
    Any,
    Unknown,
    Compound(UnionModel),
}

impl BuildState {
    /// `Error`, `Any` and `Unknown` absorb every further addition.
    pub open spec fn is_top(self) -> bool {
        match self {
            BuildState::Error | BuildState::Any | BuildState::Unknown => true,
            _ => false,
        }
    }

    /// The members collected so far (none unless compound).
    pub open spec fn collected(self) -> UnionModel {
        match self {
            BuildState::Compound(u) => u,
            _ => empty_model(),
        }
    }
}

/// Adding a member kind to a builder that has not escalated.
pub open spec fn add_simple(b: BuildState, t: Ty) -> BuildState {
    if b.is_top() {
        b
    } else {
        BuildState::Compound(model_add(b.collected(), t))
    }
}

pub open spec fn add_members(b: BuildState, ms: Seq<Ty>) -> BuildState
    decreases ms.len(),
{
    if ms.len() == 0 {
        b
    } else {
        add_simple(add_members(b, ms.drop_last()), ms.last())
    }
}

/// One builder step: escalation, flattening of unions, unwrapping of
/// instances, and otherwise collection into the compound union.
pub open spec fn add_spec(m: Tables, b: BuildState, t: Ty) -> BuildState
    decreases rank(t),
{
    if b.is_top() {
        b
    } else if is_escalating(t) {
        BuildState::Error
    } else {
        match t {
            Ty::Any => BuildState::Any,
            Ty::Unknown => BuildState::Unknown,
            Ty::Never => b,
            Ty::Union(id) => if id < m.unions.len() {
                add_members(b, members(m.unions[id as int]))
            } else {
                b
            },
            Ty::Instance(i) => if i < m.instances.len() && rank(m.instances[i as int]) < 2 {
                add_spec(m, b, m.instances[i as int])
            } else {
                b
            },
            _ => add_simple(b, t),
        }
    }
}

/// Adding a sequence of types in order.
pub open spec fn add_all(m: Tables, b: BuildState, ts: Seq<Ty>) -> BuildState
    decreases ts.len(),
{
    if ts.len() == 0 {
        b
    } else {
        add_spec(m, add_all(m, b, ts.drop_last()), ts.last())
    }
}

pub open spec fn build_wf(b: BuildState) -> bool {
    match b {
        BuildState::Compound(u) => union_wf(u) && members(u).len() > 0,
        _ => true,
    }
}

pub proof fn lemma_lit_add_wf(l: LitModel, x: u64)
    requires
        lit_wf(l),
    ensures
        lit_wf(lit_add(l, x)),
{
    if let LitModel::Literals(s) = l {
        if !s.contains(x) {
            assert forall|i: int, j: int| 0 <= i < s.push(x).len() && 0 <= j < s.push(x).len() && i != j
                implies s.push(x)[i] != s.push(x)[j] by {
                if i == s.len() {
                    assert(s[j] == s.push(x)[j]);
                } else if j == s.len() {
                    assert(s[i] == s.push(x)[i]);
                }
            }
        }
    }
}

/// Adding a member keeps a union canonical and makes it non-empty.
pub proof fn lemma_model_add_wf(u: UnionModel, t: Ty)
    requires
        union_wf(u),
        is_member(t),
    ensures
        union_wf(model_add(u, t)),
        members(model_add(u, t)).len() > 0,
{
    lemma_lit_add_wf(u.string, 0);
    match t {
        Ty::StringLiteral(v) => lemma_lit_add_wf(u.string, v),
        Ty::NumericLiteral(v) => lemma_lit_add_wf(u.number, v),
        Ty::BigIntLiteral(v) => lemma_lit_add_wf(u.bigint, v),
        Ty::UniqueSymbol(v) => lemma_lit_add_wf(u.symbol, v),
        _ => {},
    }
    let r = model_add(u, t);
    if is_complex(t) {
        if !u.complex.contains(t) {
            assert forall|i: int, j: int| 0 <= i < r.complex.len() && 0 <= j < r.complex.len() && i != j
                implies r.complex[i] != r.complex[j] by {
                if i == u.complex.len() {
                    assert(u.complex[j] == r.complex[j]);
                } else if j == u.complex.len() {
                    assert(u.complex[i] == r.complex[i]);
                }
            }
        } else {
            let k = choose|k: int| 0 <= k < u.complex.len() && u.complex[k] == t;
            assert(r.complex.len() > 0);
        }
    }
    assert(members(r).len() > 0);
}

pub proof fn lemma_members_are_members(u: UnionModel)
    requires
        union_wf(u),
    ensures
        forall|i: int| 0 <= i < members(u).len() ==> is_member(#[trigger] members(u)[i]),
{
    let s = lit_members(u.string, LiteralKind::String);
    let n = lit_members(u.number, LiteralKind::Number);
    let b = lit_members(u.bigint, LiteralKind::BigInt);
    let y = lit_members(u.symbol, LiteralKind::Symbol);
    let f = flag_members(u);
    let o = bool_members(u.boolean);
    let c = u.complex;
    let r = u.unresolved.map_values(|x: u64| Ty::Unresolved(x));
    assert forall|i: int| 0 <= i < members(u).len() implies is_member(#[trigger] members(u)[i]) by {
        let t = members(u)[i];
        let k1 = s.len();
        let k2 = k1 + n.len();
        let k3 = k2 + b.len();
        let k4 = k3 + y.len();
        let k5 = k4 + f.len();
        let k6 = k5 + o.len();
        let k7 = k6 + c.len();
        if i < k1 {
            assert(t == s[i]);
        } else if i < k2 {
            assert(t == n[i - k1]);
        } else if i < k3 {
            assert(t == b[i - k2]);
        } else if i < k4 {
            assert(t == y[i - k3]);
        } else if i < k5 {
            assert(t == f[i - k4]);
        } else if i < k6 {
            assert(t == o[i - k5]);
        } else if i < k7 {
            assert(t == c[i - k6]);
        } else {
            assert(t == r[i - k7]);
        }
    }
}

/// Monotone accumulator of member types: `Never`, then a compound union,
/// then one of the absorbing states `Error`, `Any`, `Unknown`.
pub enum UnionTypeBuilder {
    Never,
    Error,
    Any,
    Unknown,
    Compound(UnionType),
}

impl View for UnionTypeBuilder {
    type V = BuildState;

    open spec fn view(&self) -> BuildState {
        match self {
            UnionTypeBuilder::Never => BuildState::Never,
            UnionTypeBuilder::Error => BuildState::Error,
            UnionTypeBuilder::Any => BuildState::Any,
            UnionTypeBuilder::Unknown => BuildState::Unknown,
            UnionTypeBuilder::Compound(u) => BuildState::Compound(u@),
        }
    }
}

impl UnionTypeBuilder {
    pub fn new() -> (r: UnionTypeBuilder)
        ensures
            r@ == BuildState::Never,
    {
        UnionTypeBuilder::Never
    }

    fn is_top(&self) -> (r: bool)
        ensures
            r == self@.is_top(),
    {
        match self {
            UnionTypeBuilder::Error | UnionTypeBuilder::Any | UnionTypeBuilder::Unknown => true,
            _ => false,
        }
    }

    fn add_member(&mut self, ty: Ty)
        requires
            is_member(ty),
            build_wf(old(self)@),
        ensures
            final(self)@ == add_simple(old(self)@, ty),
            build_wf(final(self)@),
    {
        proof {
            lemma_model_add_wf(old(self)@.collected(), ty);
        }
        match self {
            UnionTypeBuilder::Never => {
                let mut compound = UnionType::new();
                compound.add(ty);
                *self = UnionTypeBuilder::Compound(compound);
            },
            UnionTypeBuilder::Compound(compound) => {
                compound.add(ty);
            },
            _ => {},
        }
    }

    /// Adds one type: escalates on kinds a union cannot hold, flattens
    /// unions, unwraps generic instances, and collects everything else.
    pub fn add(&mut self, analyzer: &Analyzer, ty: Ty)
        requires
            analyzer.wf(),
            valid(analyzer.tables(), ty),
            build_wf(old(self)@),
        ensures
            final(self)@ == add_spec(analyzer.tables(), old(self)@, ty),
            build_wf(final(self)@),
        decreases rank(ty),
    {
        if self.is_top() {
            return;
        }
        match ty {
            Ty::Error | Ty::Generic(_) | Ty::Intrinsic(_) | Ty::Namespace(_) => {
                *self = UnionTypeBuilder::Error;
            },
            Ty::Any => {
                *self = UnionTypeBuilder::Any;
            },
            Ty::Unknown => {
                *self = UnionTypeBuilder::Unknown;
            },
            Ty::Never => {},
            Ty::Union(id) => {
                let tys = analyzer.union_type(id).for_each();
                let ghost start = self@;
                proof {
                    lemma_members_are_members(analyzer.tables().unions[id as int]);
                }
                let mut i: usize = 0;
                while i < tys.len()
                    invariant
                        analyzer.wf(),
                        i <= tys@.len(),
                        forall|j: int| 0 <= j < tys@.len() ==> is_member(#[trigger] tys@[j]),
                        build_wf(self@),
                        self@ == add_members(start, tys@.take(i as int)),
                    decreases tys.len() - i,
                {
                    self.add_member(tys[i]);
                    i += 1;
                    assert(tys@.take(i as int).drop_last() =~= tys@.take(i - 1));
                }
                assert(tys@.take(tys@.len() as int) =~= tys@);
            },
            Ty::Instance(id) => {
                let resolved = analyzer.unwrap_generic_instance(id);
                self.add(analyzer, resolved);
            },
            _ => {
                self.add_member(ty);
            },
        }
    }

    /// The type the collected members stand for; a compound union is stored
    /// in the analyzer's arena.
    pub fn build(self, analyzer: &mut Analyzer) -> (r: Ty)
        requires
            old(analyzer).wf(),
            build_wf(self@),
        ensures
            final(analyzer).wf(),
            extends(old(analyzer).tables(), final(analyzer).tables()),
            final(analyzer).instances@ == old(analyzer).instances@,
            final(analyzer).scopes@ == old(analyzer).scopes@,
            valid(final(analyzer).tables(), r),
            denotes(final(analyzer).tables(), r, self@),
    {
        match self {
            UnionTypeBuilder::Never => Ty::Never,
            UnionTypeBuilder::Error => Ty::Error,
            UnionTypeBuilder::Any => Ty::Any,
            UnionTypeBuilder::Unknown => Ty::Unknown,
            UnionTypeBuilder::Compound(compound) => analyzer.alloc_union(compound),
        }
    }
}

impl Analyzer {
    /// Folds `types` into one type. No type gives `Undefined`; one type is
    /// returned as it is; two or more are folded through a builder.
    pub fn into_union(&mut self, types: Vec<Ty>) -> (r: Ty)
        requires
            old(self).wf(),
            forall|i: int| 0 <= i < types@.len() ==> valid(old(self).tables(), #[trigger] types@[i]),
        ensures
            final(self).wf(),
            extends(old(self).tables(), final(self).tables()),
            final(self).instances@ == old(self).instances@,
            final(self).scopes@ == old(self).scopes@,
            valid(final(self).tables(), r),
            types@.len() == 0 ==> r == Ty::Undefined,
            types@.len() == 1 ==> r == types@[0],
            types@.len() >= 2 ==> denotes(
                final(self).tables(),
                r,
                add_all(old(self).tables(), BuildState::Never, types@),
            ),
    {
        if types.len() == 0 {
            return Ty::Undefined;
        }
        if types.len() == 1 {
            return types[0];
        }
        let mut builder = UnionTypeBuilder::new();
        let mut i: usize = 0;
        while i < types.len()
            invariant
                self.wf(),
                *self == *old(self),
                i <= types@.len(),
                forall|j: int| 0 <= j < types@.len() ==> valid(self.tables(), #[trigger] types@[j]),
                build_wf(builder@),
                builder@ == add_all(self.tables(), BuildState::Never, types@.take(i as int)),
            decreases types.len() - i,
        {
            builder.add(self, types[i]);
            i += 1;
            assert(types@.take(i as int).drop_last() =~= types@.take(i - 1));
        }
        assert(types@.take(types@.len() as int) =~= types@);
        builder.build(self)
    }

    /// An optional binding is `T | undefined`.
    pub fn get_optional_type(&mut self, optional: bool, ty: Ty) -> (r: Ty)
        requires
            old(self).wf(),
            valid(old(self).tables(), ty),
        ensures
            final(self).wf(),
            extends(old(self).tables(), final(self).tables()),
            final(self).instances@ == old(self).instances@,
            final(self).scopes@ == old(self).scopes@,
            valid(final(self).tables(), r),
            optional ==> denotes(
                final(self).tables(),
                r,
                add_all(old(self).tables(), BuildState::Never, seq![Ty::Undefined, ty]),
            ),
            !optional ==> r == ty && final(self).tables() == old(self).tables(),
    {
        if optional {
            let types = vec![Ty::Undefined, ty];
            assert(types@ =~= seq![Ty::Undefined, ty]);
            self.into_union(types)
        } else {
            ty
        }
    }

    /// Property access distributes over a union: `properties[i]` is the
    /// type of the property on the `i`-th member that `union.for_each()`
    /// lists, and the result folds them through a fresh builder.
    pub fn get_union_property(&mut self, union: &UnionType, properties: &Vec<Ty>) -> (r: Ty)
        requires
            old(self).wf(),
            properties@.len() == members(union@).len(),
            forall|i: int|
                0 <= i < properties@.len() ==> valid(old(self).tables(), #[trigger] properties@[i]),
        ensures
            final(self).wf(),
            extends(old(self).tables(), final(self).tables()),
            final(self).instances@ == old(self).instances@,
            final(self).scopes@ == old(self).scopes@,
            valid(final(self).tables(), r),
            denotes(final(self).tables(), r, add_all(old(self).tables(), BuildState::Never, properties@)),
    {
        let mut builder = UnionTypeBuilder::new();
        let mut i: usize = 0;
        while i < properties.len()
            invariant
                self.wf(),
                *self == *old(self),
                i <= properties@.len(),
                forall|j: int|
                    0 <= j < properties@.len() ==> valid(self.tables(), #[trigger] properties@[j]),
                build_wf(builder@),
                builder@ == add_all(self.tables(), BuildState::Never, properties@.take(i as int)),
            decreases properties.len() - i,
        {
            builder.add(self, properties[i]);
            i += 1;
            assert(properties@.take(i as int).drop_last() =~= properties@.take(i - 1));
        }
        assert(properties@.take(properties@.len() as int) =~= properties@);
        builder.build(self)
    }
}

/// A builder step reads only entries that exist, so growing the tables
/// does not change it.
pub proof fn lemma_add_spec_extends(m1: Tables, m2: Tables, b: BuildState, t: Ty)
    requires
        tables_wf(m1),
        extends(m1, m2),
        valid(m1, t),
    ensures
        add_spec(m1, b, t) == add_spec(m2, b, t),
    decreases rank(t),
{
    if let Ty::Instance(i) = t {
        let r = m1.instances[i as int];
        assert(valid(m1, r));
        lemma_add_spec_extends(m1, m2, b, r);
    }
}

pub proof fn lemma_add_all_extends(m1: Tables, m2: Tables, b: BuildState, ts: Seq<Ty>)
    requires
        tables_wf(m1),
        extends(m1, m2),
        forall|i: int| 0 <= i < ts.len() ==> valid(m1, #[trigger] ts[i]),
    ensures
        add_all(m1, b, ts) == add_all(m2, b, ts),
    decreases ts.len(),
{
    if ts.len() > 0 {
        let d = ts.drop_last();
        assert forall|i: int| 0 <= i < d.len() implies valid(m1, #[trigger] d[i]) by {
            assert(d[i] == ts[i]);
        }
        lemma_add_all_extends(m1, m2, b, d);
        lemma_add_spec_extends(m1, m2, add_all(m1, b, d), ts.last());
    }
}

pub proof fn lemma_denotes_extends(m1: Tables, m2: Tables, r: Ty, b: BuildState)
    requires
        extends(m1, m2),
        denotes(m1, r, b),
    ensures
        denotes(m2, r, b),
{
}

} // verus!
