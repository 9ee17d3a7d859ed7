use union_types::analyzer::Analyzer;
use union_types::scope::{Binding, WhileStatement};
use union_types::ty::{LiteralKind, Ty};
use union_types::union::{LiteralAble, UnionType, UnionTypeBuilder};

fn members_of(a: &Analyzer, t: Ty) -> Vec<Ty> {
    match t {
        Ty::Union(id) => a.union_type(id).for_each(),
        other => panic!("expected a union, got {:?}", other),
    }
}

fn union_of(a: &Analyzer, t: Ty) -> &UnionType {
    match t {
        Ty::Union(id) => a.union_type(id),
        other => panic!("expected a union, got {:?}", other),
    }
}

#[test]
fn literal_add_is_idempotent() {
    let mut once: LiteralAble<u64> = LiteralAble::Vacant;
    once.add(7);
    let mut many: LiteralAble<u64> = LiteralAble::Vacant;
    for _ in 0..5 {
        many.add(7);
    }
    assert_eq!(once, many);
    assert_eq!(many, LiteralAble::Literals(vec![7]));
}

#[test]
fn literal_any_absorbs() {
    let mut l: LiteralAble<u64> = LiteralAble::Any;
    l.add(1);
    l.add(2);
    assert_eq!(l, LiteralAble::Any);
    assert_eq!(l.for_each(LiteralKind::Number), vec![Ty::Number]);
}

#[test]
fn literal_for_each_lists_literals() {
    let mut l: LiteralAble<u64> = LiteralAble::Vacant;
    assert_eq!(l.for_each(LiteralKind::String), vec![]);
    l.add(3);
    l.add(1);
    l.add(3);
    assert_eq!(
        l.for_each(LiteralKind::String),
        vec![Ty::StringLiteral(3), Ty::StringLiteral(1)]
    );
}

#[test]
fn builder_absorbs_after_escalation() {
    let a = Analyzer::new();
    for first in [Ty::Error, Ty::Any, Ty::Unknown] {
        let mut b = UnionTypeBuilder::new();
        b.add(&a, first);
        b.add(&a, Ty::String);
        b.add(&a, Ty::Any);
        b.add(&a, Ty::Unknown);
        b.add(&a, Ty::Generic(1));
        let mut a2 = Analyzer::new();
        assert_eq!(b.build(&mut a2), first);
    }
}

#[test]
fn empty_input_is_undefined() {
    let mut a = Analyzer::new();
    assert_eq!(a.into_union(vec![]), Ty::Undefined);
}

#[test]
fn singleton_is_returned_unchanged() {
    let mut a = Analyzer::new();
    assert_eq!(a.into_union(vec![Ty::String]), Ty::String);
    assert_eq!(a.into_union(vec![Ty::Generic(4)]), Ty::Generic(4));
    assert_eq!(a.into_union(vec![Ty::BooleanLiteral(true)]), Ty::BooleanLiteral(true));
    assert_eq!(a.unions.len(), 0);
}

#[test]
fn boolean_literals_reconstruct_boolean() {
    let mut a = Analyzer::new();
    let t = a.into_union(vec![Ty::BooleanLiteral(true), Ty::BooleanLiteral(false)]);
    assert_eq!(members_of(&a, t), vec![Ty::Boolean]);
    let t = a.into_union(vec![Ty::BooleanLiteral(false), Ty::BooleanLiteral(false)]);
    assert_eq!(members_of(&a, t), vec![Ty::BooleanLiteral(false)]);
}

#[test]
fn escalating_kinds_give_error() {
    let mut a = Analyzer::new();
    for bad in [Ty::Error, Ty::Generic(1), Ty::Intrinsic(2), Ty::Namespace(3)] {
        assert_eq!(a.into_union(vec![Ty::String, bad, Ty::Number]), Ty::Error);
        assert_eq!(a.into_union(vec![bad, Ty::Unknown]), Ty::Error);
    }
}

#[test]
fn first_top_value_wins() {
    let mut a = Analyzer::new();
    assert_eq!(a.into_union(vec![Ty::Any, Ty::Unknown]), Ty::Any);
    assert_eq!(a.into_union(vec![Ty::Unknown, Ty::Any]), Ty::Unknown);
    assert_eq!(a.into_union(vec![Ty::Any, Ty::Error]), Ty::Any);
}

#[test]
fn never_is_identity() {
    let mut a = Analyzer::new();
    assert_eq!(a.into_union(vec![Ty::Never, Ty::Never]), Ty::Never);
    assert_eq!(a.into_union(vec![Ty::Never, Ty::Any]), Ty::Any);
    let u = a.into_union(vec![Ty::String, Ty::Null]);
    let v = a.into_union(vec![Ty::Never, u]);
    assert_ne!(u, v);
    assert_eq!(union_of(&a, u), union_of(&a, v));
}

#[test]
fn nested_unions_are_flattened() {
    let mut a = Analyzer::new();
    let inner = a.into_union(vec![Ty::NumericLiteral(2), Ty::Record(9)]);
    let nested = a.into_union(vec![Ty::StringLiteral(1), inner]);
    let flat = a.into_union(vec![Ty::StringLiteral(1), Ty::NumericLiteral(2), Ty::Record(9)]);
    assert_eq!(union_of(&a, nested), union_of(&a, flat));
    for m in members_of(&a, nested) {
        assert!(!matches!(m, Ty::Union(_)));
    }
}

#[test]
fn enumeration_round_trips() {
    let mut a = Analyzer::new();
    let t = a.into_union(vec![
        Ty::Unresolved(4),
        Ty::Function(3),
        Ty::BooleanLiteral(true),
        Ty::Undefined,
        Ty::UniqueSymbol(8),
        Ty::BigIntLiteral(6),
        Ty::StringLiteral(1),
        Ty::Number,
        Ty::Unresolved(4),
    ]);
    let listed = members_of(&a, t);
    assert_eq!(
        listed,
        vec![
            Ty::StringLiteral(1),
            Ty::Number,
            Ty::BigIntLiteral(6),
            Ty::UniqueSymbol(8),
            Ty::Undefined,
            Ty::BooleanLiteral(true),
            Ty::Function(3),
            Ty::Unresolved(4),
            Ty::Unresolved(4),
        ]
    );
    let back = a.into_union(listed);
    assert_eq!(union_of(&a, t), union_of(&a, back));
}

#[test]
fn complex_shapes_dedup_and_unresolved_do_not() {
    let mut a = Analyzer::new();
    let t = a.into_union(vec![
        Ty::Record(1),
        Ty::Unresolved(5),
        Ty::Record(1),
        Ty::Interface(2),
        Ty::Unresolved(5),
    ]);
    let u = union_of(&a, t);
    assert_eq!(u.complex, vec![Ty::Record(1), Ty::Interface(2)]);
    assert_eq!(u.unresolved, vec![5, 5]);
}

#[test]
fn primitive_widens_literals() {
    let mut a = Analyzer::new();
    let t = a.into_union(vec![Ty::StringLiteral(1), Ty::StringLiteral(2), Ty::String, Ty::StringLiteral(3)]);
    assert_eq!(members_of(&a, t), vec![Ty::String]);
    let bits = 1.5f64.to_bits();
    let t = a.into_union(vec![Ty::NumericLiteral(bits), Ty::NumericLiteral(bits)]);
    assert_eq!(members_of(&a, t), vec![Ty::NumericLiteral(bits)]);
}

#[test]
fn instances_are_unwrapped() {
    let mut a = Analyzer::new();
    let inner = a.into_union(vec![Ty::Null, Ty::Void]);
    let inst = a.register_instance(inner);
    assert_eq!(a.unwrap_generic_instance(0), inner);
    let t = a.into_union(vec![inst, Ty::Object]);
    assert_eq!(members_of(&a, t), vec![Ty::Object, Ty::Void, Ty::Null]);
    let gen = a.register_instance(Ty::Generic(1));
    assert_eq!(a.into_union(vec![Ty::Object, gen]), Ty::Error);
}

#[test]
fn optional_adds_undefined() {
    let mut a = Analyzer::new();
    let opt = a.get_optional_type(true, Ty::String);
    let direct = a.into_union(vec![Ty::Undefined, Ty::String]);
    assert_eq!(union_of(&a, opt), union_of(&a, direct));
    assert_eq!(members_of(&a, opt), vec![Ty::String, Ty::Undefined]);
    assert_eq!(a.get_optional_type(false, Ty::String), Ty::String);
}

#[test]
fn property_access_distributes() {
    let mut a = Analyzer::new();
    let t = a.into_union(vec![Ty::Record(1), Ty::String]);
    let members = members_of(&a, t);
    assert_eq!(members, vec![Ty::String, Ty::Record(1)]);
    // property of String is Number, property of Record(1) is Boolean
    let props = vec![Ty::Number, Ty::Boolean];
    let u = a.union_type(match t { Ty::Union(id) => id, _ => unreachable!() });
    let mut copy = UnionType::new();
    for m in u.for_each() {
        copy.add(m);
    }
    let p = a.get_union_property(&copy, &props);
    let direct = a.into_union(vec![Ty::Boolean, Ty::Number]);
    assert_eq!(union_of(&a, p), union_of(&a, direct));
}

#[test]
fn union_type_add_and_list() {
    let mut u = UnionType::new();
    assert_eq!(u.for_each(), vec![]);
    u.add(Ty::BooleanLiteral(false));
    u.add(Ty::Null);
    u.add(Ty::BooleanLiteral(true));
    u.add(Ty::Symbol);
    assert_eq!(u.for_each(), vec![Ty::Symbol, Ty::Null, Ty::Boolean]);
}

#[test]
fn loop_merges_entry_and_body_state() {
    let mut a = Analyzer::new();
    a.write_binding(1, Ty::String);
    let node = WhileStatement {
        test: vec![],
        body: vec![Binding { id: 1, ty: Ty::Number }],
    };
    a.exec_while_statement(&node);
    let x = a.read_binding(1).unwrap();
    assert_ne!(x, Ty::Number);
    let expected = a.into_union(vec![Ty::String, Ty::Number]);
    assert_eq!(union_of(&a, x), union_of(&a, expected));
    assert_eq!(a.scopes.len(), 1);
}

#[test]
fn loop_keeps_bindings_the_body_does_not_write() {
    let mut a = Analyzer::new();
    a.write_binding(1, Ty::String);
    a.write_binding(2, Ty::Null);
    let node = WhileStatement {
        test: vec![Binding { id: 2, ty: Ty::Null }],
        body: vec![Binding { id: 3, ty: Ty::Boolean }],
    };
    a.exec_while_statement(&node);
    assert_eq!(a.read_binding(1), Some(Ty::String));
    let two = a.read_binding(2).unwrap();
    assert_eq!(members_of(&a, two), vec![Ty::Null]);
    assert_eq!(a.read_binding(3), Some(Ty::Boolean));
    assert_eq!(a.read_binding(4), None);
}

#[test]
fn scopes_nest_and_merge_on_pop() {
    let mut a = Analyzer::new();
    a.write_binding(7, Ty::Object);
    a.push_indeterminate_scope();
    a.write_binding(7, Ty::Void);
    assert_eq!(a.read_binding(7), Some(Ty::Void));
    a.push_loop_scope();
    assert_eq!(a.read_binding(7), Some(Ty::Void));
    a.pop_scope();
    a.pop_scope();
    let seven = a.read_binding(7).unwrap();
    assert_eq!(members_of(&a, seven), vec![Ty::Object, Ty::Void]);
}
