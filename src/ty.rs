use vstd::prelude::*;

verus! {

/// One value type as the analysis tracks it.
///
/// Literal payloads and shapes are plain identifiers: an interned atom for
/// string and bigint literals, the bit pattern of a numeric literal, a symbol
/// id for unique symbols, an index into the analyzer's union arena for
/// `Union`, an index into its instance table for `Instance`, and an opaque
/// identity for complex shapes and unresolved placeholders.
#[derive(Clone, Copy, Debug, PartialEq, Eq, Hash, Structural)]
pub enum Ty {
    Never,
    Error,
    Any,
    Unknown,
    Object,
    Void,
    Null,
    Undefined,
    String,
    Number,
    BigInt,
    Symbol,
    Boolean,
    StringLiteral(u64),
    NumericLiteral(u64),
    BigIntLiteral(u64),
    UniqueSymbol(u64),
    BooleanLiteral(bool),
    Union(usize),
    Record(u64),
    Function(u64),
    Constructor(u64),
    Interface(u64),
    Intersection(u64),
    Namespace(u64),
    Generic(u64),
    Intrinsic(u64),
    Instance(usize),
    Unresolved(u64),
}

/// Shapes kept in a union's deduplicated complex set.
pub open spec fn is_complex(t: Ty) -> bool {
    match t {
        Ty::Record(_) | Ty::Function(_) | Ty::Constructor(_) | Ty::Interface(_)
        | Ty::Intersection(_) => true,
        _ => false,
    }
}

/// Kinds that a canonical union stores as members.
pub open spec fn is_member(t: Ty) -> bool {
    match t {
        Ty::Object | Ty::Void | Ty::Null | Ty::Undefined | Ty::String | Ty::Number | Ty::BigInt
        | Ty::Symbol | Ty::Boolean | Ty::StringLiteral(_) | Ty::NumericLiteral(_)
        | Ty::BigIntLiteral(_) | Ty::UniqueSymbol(_) | Ty::BooleanLiteral(_) | Ty::Unresolved(
            _,
        ) => true,
        _ => is_complex(t),
    }
}

/// Kinds that a union cannot model: they degrade the whole union to `Error`.
pub open spec fn is_escalating(t: Ty) -> bool {
    match t {
        Ty::Error | Ty::Generic(_) | Ty::Intrinsic(_) | Ty::Namespace(_) => true,
        _ => false,
    }
}

/// Nesting depth of indirection: an instance may resolve to a union.
pub open spec fn rank(t: Ty) -> nat {
    match t {
        Ty::Instance(_) => 2,
        Ty::Union(_) => 1,
        _ => 0,
    }
}

/// The four primitive kinds whose values may be tracked as literals.
#[derive(Clone, Copy, Debug, PartialEq, Eq, Structural)]
pub enum LiteralKind {
    String,
    Number,
    BigInt,
    Symbol,
}

/// The "any value of this kind" type.
pub open spec fn any_of(k: LiteralKind) -> Ty {
    match k {
        LiteralKind::String => Ty::String,
        LiteralKind::Number => Ty::Number,
        LiteralKind::BigInt => Ty::BigInt,
        LiteralKind::Symbol => Ty::Symbol,
    }
}

/// The literal type of kind `k` with payload `v`.
pub open spec fn literal_of(k: LiteralKind, v: u64) -> Ty {
    match k {
        LiteralKind::String => Ty::StringLiteral(v),
        LiteralKind::Number => Ty::NumericLiteral(v),
        LiteralKind::BigInt => Ty::BigIntLiteral(v),
        LiteralKind::Symbol => Ty::UniqueSymbol(v),
    }
}

impl LiteralKind {
    pub fn any_ty(&self) -> (r: Ty)
        ensures
            r == any_of(*self),
    {
        match self {
            LiteralKind::String => Ty::String,
            LiteralKind::Number => Ty::Number,
            LiteralKind::BigInt => Ty::BigInt,
            LiteralKind::Symbol => Ty::Symbol,
        }
    }

    pub fn literal(&self, v: u64) -> (r: Ty)
        ensures
            r == literal_of(*self, v),
    {
        match self {
            LiteralKind::String => Ty::StringLiteral(v),
            LiteralKind::Number => Ty::NumericLiteral(v),
            LiteralKind::BigInt => Ty::BigIntLiteral(v),
            LiteralKind::Symbol => Ty::UniqueSymbol(v),
        }
    }
}

} // verus!
