//! End-to-end solving scenarios.

use typesolver::constraint::Constraint;
use typesolver::constraint::ConstraintType;
use typesolver::constraint::Function;
use typesolver::context::Context;
use typesolver::data_type;
use typesolver::data_type::Class;
use typesolver::data_type::ParameterKind;
use typesolver::data_type::Variation;
use typesolver::diag::Diagnostic;
use typesolver::diag::SolveResult;
use typesolver::pattern;
use typesolver::pattern::Pattern;
use typesolver::reference::Reference;
use typesolver::sets::Boolean;
use typesolver::sets::Integer;
use typesolver::valueset::DataType;
use typesolver::valueset::Value;
use typesolver::valueset::ValueSet;

fn decimal_class() -> Class {
    Class {
        id: 1,
        name: "DECIMAL".to_owned(),
        kinds: vec![ParameterKind::Unsigned, ParameterKind::Unsigned],
        variadic: false,
        named: false,
    }
}

fn list_class() -> Class {
    Class {
        id: 2,
        name: "LIST".to_owned(),
        kinds: vec![ParameterKind::DataType],
        variadic: false,
        named: false,
    }
}

fn struct_class() -> Class {
    Class {
        id: 3,
        name: "STRUCT".to_owned(),
        kinds: vec![ParameterKind::DataType],
        variadic: true,
        named: false,
    }
}

fn i32_class() -> Class {
    Class { id: 4, name: "i32".to_owned(), kinds: vec![], variadic: false, named: false }
}

fn i32_type(nullable: bool) -> data_type::DataType {
    data_type::DataType {
        class: i32_class(),
        nullable,
        variation: Variation::Base,
        parameters: vec![],
    }
}

fn within(vs: ValueSet, reason: &str) -> Constraint {
    Constraint { data: ConstraintType::Within(vs), reason: reason.to_owned() }
}

#[test]
fn decimal_result_inference() {
    let mut ctx = Context::new();
    let mut p = Reference::new_generic("P");
    p.bind(&mut ctx);
    let mut s = Reference::new_generic("S");
    s.bind(&mut ctx);
    let mut out = Reference::new_inferred(&mut ctx, Some("result"));
    out.bind(&mut ctx);
    p.constrain(&mut ctx, within(ValueSet::of_integers(Integer::singleton(10)), "P is 10"))
        .unwrap();
    s.constrain(&mut ctx, within(ValueSet::of_integers(Integer::singleton(2)), "S is 2"))
        .unwrap();
    out.constrain(
        &mut ctx,
        Constraint {
            data: ConstraintType::Function(
                Function::DecimalAdd(decimal_class()),
                vec![p.clone(), s.clone(), p.clone(), s.clone()],
            ),
            reason: "result of decimal addition".to_owned(),
        },
    )
    .unwrap();
    let r = ctx.solve();
    assert!(matches!(r, SolveResult::Resolved(_)));
    let v = out.value(&ctx).unwrap().unwrap();
    match v {
        Value::DataType(t) => {
            assert_eq!(t.class.id, 1);
            assert!(!t.nullable);
            assert_eq!(t.parameters.len(), 2);
            assert!(matches!(t.parameters[0], data_type::Parameter::Unsigned(11)));
            assert!(matches!(t.parameters[1], data_type::Parameter::Unsigned(2)));
        },
        _ => panic!("expected a data type"),
    }
}

#[test]
fn equality_merge() {
    let mut ctx = Context::new();
    let mut a = Reference::new_inferred(&mut ctx, Some("A"));
    a.bind(&mut ctx);
    let mut b = Reference::new_inferred(&mut ctx, Some("B"));
    b.bind(&mut ctx);
    a.constrain(&mut ctx, within(ValueSet::of_integers(Integer::range(1, 3)), "A in 1..=3"))
        .unwrap();
    b.constrain(&mut ctx, within(ValueSet::of_integers(Integer::range(2, 4)), "B in 2..=4"))
        .unwrap();
    a.constrain_equal(&mut ctx, &b).unwrap();
    let r = ctx.solve();
    assert!(matches!(r, SolveResult::Underdetermined(_)));
    assert!(a.matches(&ctx, &Value::Integer(2)));
    assert!(a.matches(&ctx, &Value::Integer(3)));
    assert!(!a.matches(&ctx, &Value::Integer(1)));
    assert!(!a.matches(&ctx, &Value::Integer(4)));
    assert!(b.matches(&ctx, &Value::Integer(2)));
    assert!(!b.matches(&ctx, &Value::Integer(4)));
}

#[test]
fn contradiction_witness() {
    let mut ctx = Context::new();
    let mut x = Reference::new_generic("X");
    x.bind(&mut ctx);
    x.constrain(&mut ctx, within(ValueSet::of_integers(Integer::range(1, 2)), "X in 1..=2"))
        .unwrap();
    let r = x.constrain(
        &mut ctx,
        within(ValueSet::of_integers(Integer::singleton(3)), "X is 3"),
    );
    match r {
        Err(Diagnostic::OverConstrained(w)) => {
            assert_eq!(w.len(), 2);
            assert_eq!(w[0].reason, "X in 1..=2");
            assert_eq!(w[1].reason, "X is 3");
        },
        _ => panic!("expected an over-constrained diagnostic"),
    }
}

#[test]
fn nullability_propagation() {
    let mut ctx = Context::new();
    let mut pat = Pattern {
        class: list_class(),
        nullable: Some(Reference::new_generic("n")),
        variation: None,
        parameters: Some(vec![pattern::Parameter {
            name: None,
            value: Reference::new_generic("T"),
        }]),
    };
    pat.bind(&mut ctx);
    pat.apply_static_constraints(&mut ctx).unwrap();
    let concrete = data_type::DataType {
        class: list_class(),
        nullable: false,
        variation: Variation::Base,
        parameters: vec![data_type::Parameter::Typ(i32_type(false))],
    };
    assert!(pat.matches(&ctx, &concrete));
    pat.apply_match_constraints(&mut ctx, &concrete).unwrap();
    let n = pat.nullable.as_ref().unwrap();
    assert_eq!(ctx.ref_bool_value(n), Some(false));
    let t = &pat.parameters.as_ref().unwrap()[0].value;
    match t.value(&ctx).unwrap().unwrap() {
        Value::DataType(tt) => assert!(tt.same_as(&i32_type(false))),
        _ => panic!("expected a data type"),
    }
    // The variation of the matched type was copied into the pattern.
    assert!(matches!(pat.variation, Some(Variation::Base)));
}

#[test]
fn match_concretize_round_trip() {
    let mut ctx = Context::new();
    let mut pat = Pattern {
        class: list_class(),
        nullable: Some(Reference::new_generic("n")),
        variation: None,
        parameters: Some(vec![pattern::Parameter {
            name: None,
            value: Reference::new_generic("T"),
        }]),
    };
    pat.bind(&mut ctx);
    let concrete = data_type::DataType {
        class: list_class(),
        nullable: true,
        variation: Variation::Base,
        parameters: vec![data_type::Parameter::Typ(i32_type(false))],
    };
    pat.apply_match_constraints(&mut ctx, &concrete).unwrap();
    let back = pat.make_concrete(&ctx).unwrap().unwrap();
    assert!(back.same_as(&concrete));
}

#[test]
fn under_determined_pattern_pack() {
    let mut ctx = Context::new();
    let mut pat = Pattern {
        class: struct_class(),
        nullable: Some(Reference::new_inferred(&mut ctx, Some("n"))),
        variation: None,
        parameters: Some(vec![
            pattern::Parameter { name: None, value: Reference::new_inferred(&mut ctx, None) },
            pattern::Parameter { name: None, value: Reference::new_inferred(&mut ctx, None) },
        ]),
    };
    pat.bind(&mut ctx);
    pat.apply_static_constraints(&mut ctx).unwrap();
    let r = ctx.solve();
    match r {
        SolveResult::Underdetermined(list) => {
            assert!(list.len() >= 2);
            // The element variables still admit every data type.
            let ps = pat.parameters.as_ref().unwrap();
            assert!(ps[0].value.matches(&ctx, &Value::DataType(i32_type(false))));
            assert!(ps[1].value.matches(&ctx, &Value::DataType(i32_type(true))));
        },
        _ => panic!("expected an under-determined result"),
    }
}

fn unsigned_param_pattern(ctx: &mut Context, class: Class, lo: i64, hi: i64) -> Pattern {
    let mut pat = Pattern {
        class,
        nullable: Some(Reference::new_inferred(ctx, None)),
        variation: None,
        parameters: Some(vec![pattern::Parameter {
            name: None,
            value: Reference::new_inferred(ctx, None),
        }]),
    };
    pat.bind(ctx);
    pat.apply_static_constraints(ctx).unwrap();
    let v = &pat.parameters.as_ref().unwrap()[0].value;
    v.constrain(ctx, within(ValueSet::of_integers(Integer::range(lo, hi)), "parameter range"))
        .unwrap();
    pat
}

fn one_param_class() -> Class {
    Class {
        id: 9,
        name: "VARCHAR".to_owned(),
        kinds: vec![ParameterKind::Unsigned],
        variadic: false,
        named: false,
    }
}

#[test]
fn too_complex_superset_query() {
    let mut ctx = Context::new();
    let p1 = unsigned_param_pattern(&mut ctx, one_param_class(), 0, 10);
    let p2 = unsigned_param_pattern(&mut ctx, one_param_class(), 5, 20);
    let union = DataType::Patterns(vec![p1.clone(), p2.clone()]);
    let q = unsigned_param_pattern(&mut ctx, one_param_class(), 0, 20);
    let target = DataType::Patterns(vec![q]);
    // Close the system so that definite answers become possible at all.
    let _ = ctx.solve();
    // The union covers the target only as a union: the query must stay
    // unknown rather than guess.
    assert_eq!(union.superset_of(&ctx, &target), None);

    // The same query is load-bearing when it backs a recorded
    // constraint, and then surfaces as a too-complex outcome.
    let mut ctx2 = Context::new();
    let p1b = unsigned_param_pattern(&mut ctx2, one_param_class(), 0, 10);
    let p2b = unsigned_param_pattern(&mut ctx2, one_param_class(), 5, 20);
    let mut x = Reference::new_inferred(&mut ctx2, Some("X"));
    x.bind(&mut ctx2);
    x.constrain(
        &mut ctx2,
        within(
            ValueSet::of_data_types(DataType::Patterns(vec![p1b, p2b])),
            "X within a union of overlapping patterns",
        ),
    )
    .unwrap();
    let r = ctx2.solve();
    assert!(matches!(r, SolveResult::TooComplex));
}

#[test]
fn constrain_deduplicates() {
    let mut ctx = Context::new();
    let mut x = Reference::new_generic("X");
    x.bind(&mut ctx);
    let c = within(ValueSet::of_integers(Integer::range(1, 5)), "X in 1..=5");
    x.constrain(&mut ctx, c.clone()).unwrap();
    x.constrain(&mut ctx, c).unwrap();
    assert_eq!(ctx.datas[0].constraints.len(), 1);
}

#[test]
fn generic_names_fold_case() {
    let mut ctx = Context::new();
    let mut a = Reference::new_generic("Foo");
    a.bind(&mut ctx);
    let mut b = Reference::new_generic("fOO");
    b.bind(&mut ctx);
    assert_eq!(a.alias, b.alias);
    a.constrain(&mut ctx, within(ValueSet::of_integers(Integer::singleton(7)), "seven"))
        .unwrap();
    assert!(b.matches(&ctx, &Value::Integer(7)));
    assert!(!b.matches(&ctx, &Value::Integer(8)));
}

#[test]
fn merge_is_commutative_on_constraints() {
    let run = |swap: bool| {
        let mut ctx = Context::new();
        let mut a = Reference::new_inferred(&mut ctx, Some("A"));
        a.bind(&mut ctx);
        let mut b = Reference::new_inferred(&mut ctx, Some("B"));
        b.bind(&mut ctx);
        a.constrain(&mut ctx, within(ValueSet::of_integers(Integer::range(0, 10)), "low"))
            .unwrap();
        b.constrain(&mut ctx, within(ValueSet::of_integers(Integer::range(5, 15)), "high"))
            .unwrap();
        if swap {
            b.constrain_equal(&mut ctx, &a).unwrap();
        } else {
            a.constrain_equal(&mut ctx, &b).unwrap();
        }
        let mut member = vec![];
        for v in 0..20i64 {
            member.push(a.matches(&ctx, &Value::Integer(v)));
        }
        member
    };
    assert_eq!(run(false), run(true));
}

#[test]
fn pattern_constraint_restricts_metatype() {
    let mut ctx = Context::new();
    let mut x = Reference::new_inferred(&mut ctx, Some("X"));
    x.bind(&mut ctx);
    let mut pat = Pattern {
        class: i32_class(),
        nullable: Some(Reference::new_inferred(&mut ctx, None)),
        variation: None,
        parameters: Some(vec![]),
    };
    pat.bind(&mut ctx);
    x.constrain(
        &mut ctx,
        Constraint {
            data: ConstraintType::Pattern(pat),
            reason: "X is a data type".to_owned(),
        },
    )
    .unwrap();
    assert!(!x.matches(&ctx, &Value::Integer(3)));
    assert!(!x.matches(&ctx, &Value::Boolean(true)));
    assert!(x.matches(&ctx, &Value::DataType(i32_type(false))));
}

#[test]
fn arity_mismatch_is_reported() {
    let mut ctx = Context::new();
    let mut pat = Pattern {
        class: decimal_class(),
        nullable: Some(Reference::new_inferred(&mut ctx, None)),
        variation: None,
        parameters: Some(vec![pattern::Parameter {
            name: None,
            value: Reference::new_inferred(&mut ctx, None),
        }]),
    };
    pat.bind(&mut ctx);
    let r = pat.apply_static_constraints(&mut ctx);
    assert!(matches!(r, Err(Diagnostic::ArityMismatch(1))));
}

#[test]
fn kind_mismatch_is_reported() {
    let mut ctx = Context::new();
    let mut pat = Pattern {
        class: decimal_class(),
        nullable: Some(Reference::new_inferred(&mut ctx, None)),
        variation: None,
        parameters: Some(vec![
            pattern::Parameter { name: None, value: Reference::new_generic("p") },
            pattern::Parameter { name: None, value: Reference::new_generic("s") },
        ]),
    };
    pat.bind(&mut ctx);
    // Force the precision metavariable to be a boolean first: the
    // class then demands an incompatible metatype.
    let p = &pat.parameters.as_ref().unwrap()[0].value;
    p.constrain(&mut ctx, within(ValueSet::of_booleans(Boolean::full()), "a boolean"))
        .unwrap();
    let r = pat.apply_static_constraints(&mut ctx);
    assert!(matches!(r, Err(Diagnostic::TypeKindMismatch(_))));
}

#[test]
fn cover_soundness_on_concrete_types() {
    let mut ctx = Context::new();
    let wide = unsigned_param_pattern(&mut ctx, one_param_class(), 0, 100);
    let narrow = unsigned_param_pattern(&mut ctx, one_param_class(), 10, 20);
    let _ = ctx.solve();
    if wide.covers(&ctx, &narrow) == Some(true) {
        // Whenever a definite cover is reported, every type matching
        // the narrow pattern matches the wide one.
        for v in [10u64, 15, 20] {
            let t = data_type::DataType {
                class: one_param_class(),
                nullable: false,
                variation: Variation::Base,
                parameters: vec![data_type::Parameter::Unsigned(v)],
            };
            if narrow.matches(&ctx, &t) {
                assert!(wide.matches(&ctx, &t));
            }
        }
    }
    // A definite negative the other way is allowed only once the
    // narrow variable is closed; its sets no longer cover the wide
    // range.
    assert_ne!(narrow.covers(&ctx, &wide), Some(true));
}

#[test]
fn function_addition_overflow_has_no_value() {
    let f = Function::IntAdd;
    let r = f.evaluate(&vec![Value::Integer(i64::MAX), Value::Integer(1)]);
    assert!(r.is_none());
    let r2 = f.evaluate(&vec![Value::Integer(2), Value::Integer(3)]);
    match r2 {
        Some(Value::Integer(5)) => {},
        _ => panic!("expected five"),
    }
}

#[test]
fn display_follows_the_grammar() {
    let mut ctx = Context::new();
    let mut pat = Pattern {
        class: decimal_class(),
        nullable: Some(Reference::new_generic("n")),
        variation: None,
        parameters: Some(vec![
            pattern::Parameter { name: None, value: Reference::new_generic("p") },
            pattern::Parameter { name: None, value: Reference::new_generic("s") },
        ]),
    };
    pat.bind(&mut ctx);
    assert_eq!(pat.display(&ctx), "DECIMAL?n[?]<p, s>");
    let bare = Pattern {
        class: i32_class(),
        nullable: None,
        variation: Some(Variation::Base),
        parameters: None,
    };
    assert_eq!(bare.display(&ctx), "i32??");
}

#[test]
fn solver_reports_resolved_mapping() {
    let mut ctx = Context::new();
    let mut x = Reference::new_generic("X");
    x.bind(&mut ctx);
    x.constrain(&mut ctx, within(ValueSet::of_integers(Integer::singleton(42)), "X is 42"))
        .unwrap();
    match ctx.solve() {
        SolveResult::Resolved(m) => {
            assert_eq!(m.len(), 1);
            assert!(matches!(m[0].1, Value::Integer(42)));
        },
        _ => panic!("expected a resolved system"),
    }
}

#[test]
fn ill_formed_concrete_type() {
    let mut ctx = Context::new();
    let mut pat = Pattern {
        class: one_param_class(),
        nullable: Some(Reference::new_inferred(&mut ctx, None)),
        variation: None,
        parameters: Some(vec![pattern::Parameter {
            name: None,
            value: Reference::new_inferred(&mut ctx, None),
        }]),
    };
    pat.bind(&mut ctx);
    // Resolve the nullability and force a negative length: the pattern
    // is fully resolved but breaks the class's unsigned-parameter rule.
    let n = pat.nullable.as_ref().unwrap();
    n.constrain(&mut ctx, within(ValueSet::of_booleans(Boolean::singleton(false)), "plain"))
        .unwrap();
    let v = &pat.parameters.as_ref().unwrap()[0].value;
    v.constrain(&mut ctx, within(ValueSet::of_integers(Integer::singleton(-5)), "negative"))
        .unwrap();
    let r = pat.make_concrete(&ctx);
    assert!(matches!(r, Err(Diagnostic::IllFormedConcreteType)));
}

#[test]
fn covers_has_three_outcomes() {
    let mut ctx = Context::new();
    let mut wide = Reference::new_inferred(&mut ctx, Some("wide"));
    wide.bind(&mut ctx);
    let mut narrow = Reference::new_inferred(&mut ctx, Some("narrow"));
    narrow.bind(&mut ctx);
    let mut apart = Reference::new_inferred(&mut ctx, Some("apart"));
    apart.bind(&mut ctx);
    wide.constrain(&mut ctx, within(ValueSet::of_integers(Integer::range(0, 100)), "wide"))
        .unwrap();
    narrow
        .constrain(&mut ctx, within(ValueSet::of_integers(Integer::range(40, 60)), "narrow"))
        .unwrap();
    apart
        .constrain(&mut ctx, within(ValueSet::of_integers(Integer::range(200, 300)), "apart"))
        .unwrap();
    // While the system is open, a currently-covering set may still
    // shrink: the answer stays unknown.
    assert_eq!(wide.covers(&ctx, &narrow), None);
    // Disjoint sets are definitely not covering.
    assert_eq!(apart.covers(&ctx, &narrow), Some(false));
    // Once the system is closed, the covering answer becomes definite.
    let _ = ctx.solve();
    assert_eq!(wide.covers(&ctx, &narrow), Some(true));
    assert_eq!(narrow.covers(&ctx, &wide), Some(false));
}

#[test]
fn empty_and_full_sets() {
    let mut ctx = Context::new();
    let full = ValueSet::full();
    let empty = ValueSet::empty();
    assert!(full.contains(&ctx, &Value::Boolean(true)));
    assert!(full.contains(&ctx, &Value::Integer(-3)));
    assert!(full.contains(&ctx, &Value::DataType(i32_type(true))));
    assert!(!empty.contains(&ctx, &Value::Boolean(true)));
    assert!(!empty.contains(&ctx, &Value::Integer(0)));
    assert!(!empty.contains(&ctx, &Value::DataType(i32_type(false))));
    assert!(empty.is_empty());
    assert!(!full.is_empty());
    assert_eq!(full.superset_of(&ctx, &empty), Some(true));
    let _ = ctx;
}

#[test]
fn exact_type_sets_give_definite_answers() {
    let ctx = Context::new();
    let a = DataType::Exact(vec![i32_type(false), i32_type(true)]);
    let b = DataType::Exact(vec![i32_type(false)]);
    assert_eq!(a.superset_of(&ctx, &b), Some(true));
    assert!(a.intersects_with(&ctx, &b));
    assert!(a.contains(&ctx, &i32_type(true)));
    assert!(!b.contains(&ctx, &i32_type(true)));
    let v = b.value(&ctx).unwrap().unwrap();
    assert!(v.same_as(&i32_type(false)));
    assert!(a.value(&ctx).unwrap().is_none());
}

#[test]
fn unresolved_nullability_defers_matching() {
    let mut ctx = Context::new();
    let mut pat = Pattern {
        class: i32_class(),
        nullable: Some(Reference::new_generic("n")),
        variation: None,
        parameters: Some(vec![]),
    };
    pat.bind(&mut ctx);
    // While the metavariable is unresolved, both nullabilities match.
    assert!(pat.matches(&ctx, &i32_type(false)));
    assert!(pat.matches(&ctx, &i32_type(true)));
    let n = pat.nullable.as_ref().unwrap();
    n.constrain(&mut ctx, within(ValueSet::of_booleans(Boolean::singleton(true)), "nullable"))
        .unwrap();
    assert!(!pat.matches(&ctx, &i32_type(false)));
    assert!(pat.matches(&ctx, &i32_type(true)));
}

#[test]
fn constrain_order_is_irrelevant() {
    let run = |swap: bool| {
        let mut ctx = Context::new();
        let mut x = Reference::new_generic("X");
        x.bind(&mut ctx);
        let c1 = within(ValueSet::of_integers(Integer::range(0, 10)), "low");
        let c2 = within(ValueSet::of_integers(Integer::range(5, 15)), "high");
        if swap {
            x.constrain(&mut ctx, c2).unwrap();
            x.constrain(&mut ctx, c1).unwrap();
        } else {
            x.constrain(&mut ctx, c1).unwrap();
            x.constrain(&mut ctx, c2).unwrap();
        }
        let mut member = vec![];
        for v in 0..20i64 {
            member.push(x.matches(&ctx, &Value::Integer(v)));
        }
        member
    };
    let a = run(false);
    let b = run(true);
    assert_eq!(a, b);
    // And the result is the intersection of the admissible sets.
    for v in 0..20i64 {
        assert_eq!(a[v as usize], (5..=10).contains(&v));
    }
}

#[test]
fn reference_display_renders_keys() {
    let mut ctx = Context::new();
    let r = Reference::new_function_parameter_type(12);
    assert_eq!(r.display(&ctx), "parameter 12");
    let ret = Reference::new_function_return_type();
    assert_eq!(ret.display(&ctx), "return type");
    let mut named = Reference::new_generic("Widths");
    // Before binding, the original spelling is shown; afterwards the
    // alias carries the case-folded name.
    assert_eq!(named.display(&ctx), "Widths");
    named.bind(&mut ctx);
    assert_eq!(named.display(&ctx), "widths");
}

#[test]
fn named_parameters_quote_odd_names() {
    let mut ctx = Context::new();
    let mut pat = Pattern {
        class: Class {
            id: 8,
            name: "NSTRUCT".to_owned(),
            kinds: vec![ParameterKind::DataType],
            variadic: true,
            named: true,
        },
        nullable: Some(Reference::new_generic("n")),
        variation: None,
        parameters: Some(vec![
            pattern::Parameter {
                name: Some("plain_name".to_owned()),
                value: Reference::new_generic("a"),
            },
            pattern::Parameter {
                name: Some("odd name".to_owned()),
                value: Reference::new_generic("b"),
            },
        ]),
    };
    pat.bind(&mut ctx);
    assert_eq!(pat.display(&ctx), "NSTRUCT?n[?]<plain_name: a, \"odd name\": b>");
}

#[test]
fn empty_scope_resolves_trivially() {
    let mut ctx = Context::new();
    match ctx.solve() {
        SolveResult::Resolved(m) => assert_eq!(m.len(), 0),
        _ => panic!("expected a trivially resolved scope"),
    }
}

#[test]
fn unique_member_definite_negative() {
    // Exactly one union member meets the target pattern, and it
    // definitely does not cover it: the query answers a definite no
    // instead of deferring.
    let mut ctx = Context::new();
    let member = unsigned_param_pattern(&mut ctx, one_param_class(), 0, 10);
    let union = DataType::Patterns(vec![member]);
    let target = unsigned_param_pattern(&mut ctx, one_param_class(), 0, 20);
    let targets = DataType::Patterns(vec![target]);
    let _ = ctx.solve();
    assert_eq!(union.superset_of(&ctx, &targets), Some(false));
}

#[test]
fn propagation_contradiction_reports_first_empty_block() {
    // The forced sum 3 conflicts with the recorded membership {5}: the
    // block empties during propagation and the solver reports it.
    let mut ctx = Context::new();
    let mut p = Reference::new_generic("p");
    p.bind(&mut ctx);
    let mut q = Reference::new_generic("q");
    q.bind(&mut ctx);
    let mut y = Reference::new_inferred(&mut ctx, Some("sum"));
    y.bind(&mut ctx);
    // Recorded while the inputs are still unresolved: nothing forces a
    // value yet.
    y.constrain(
        &mut ctx,
        Constraint {
            data: ConstraintType::Function(Function::IntAdd, vec![p.clone(), q.clone()]),
            reason: "sum of p and q".to_owned(),
        },
    )
    .unwrap();
    p.constrain(&mut ctx, within(ValueSet::of_integers(Integer::singleton(1)), "p is 1"))
        .unwrap();
    q.constrain(&mut ctx, within(ValueSet::of_integers(Integer::singleton(2)), "q is 2"))
        .unwrap();
    y.constrain(&mut ctx, within(ValueSet::of_integers(Integer::singleton(5)), "sum is 5"))
        .unwrap();
    match ctx.solve() {
        SolveResult::Contradiction(Diagnostic::OverConstrained(w)) => {
            assert!(w.len() >= 1);
            // The witness names constraints of the block that emptied.
            assert!(w.iter().all(|c| c.reason.contains("sum")));
        },
        r => panic!("expected a contradiction, got {r:?}"),
    }
}
