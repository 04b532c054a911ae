use agent_illustrator::ast::{
    ConstrainDecl, ConstraintExpr, ConstraintProperty, Document, ElementPath, Identifier, LayoutDecl,
    LayoutType, PropertyRef, ShapeDecl, ShapeType, Span, Spanned, Statement, StyleKey, StyleModifier,
    StyleValue,
};
use agent_illustrator::layout::collector::ConstraintCollector;
use agent_illustrator::layout::config::LayoutConfig;
use agent_illustrator::layout::solver::{ConstraintOrigin, LayoutConstraint, LayoutProperty};
use agent_illustrator::num::Num;

fn sp<T>(node: T) -> Spanned<T> {
    Spanned { node, span: Span::new(0, 0) }
}

fn ident(name: &str) -> Spanned<Identifier> {
    sp(Identifier(name.to_string()))
}

fn num_mod(key: StyleKey, v: i32) -> Spanned<StyleModifier> {
    sp(StyleModifier { key: sp(key), value: sp(StyleValue::Number { value: Num::from_int(v), unit: None }) })
}

fn rect(name: &str, modifiers: Vec<Spanned<StyleModifier>>) -> Spanned<Statement> {
    sp(Statement::Shape(ShapeDecl { shape_type: sp(ShapeType::Rectangle), name: Some(ident(name)), modifiers }))
}

fn prop(elem: &str, p: ConstraintProperty) -> PropertyRef {
    PropertyRef {
        element: sp(ElementPath::simple(Identifier(elem.to_string()), Span::new(0, 0))),
        property: sp(p),
    }
}

fn constrain(expr: ConstraintExpr) -> Spanned<Statement> {
    sp(Statement::Constrain(ConstrainDecl { expr, name: None }))
}

fn collect(statements: Vec<Spanned<Statement>>) -> ConstraintCollector {
    let doc = Document { statements };
    let mut collector = ConstraintCollector::new(LayoutConfig::default());
    collector.collect(&doc);
    collector
}

// rect a [width: 100]
#[test]
fn test_collect_intrinsic_width() {
    let collector = collect(vec![rect("a", vec![num_mod(StyleKey::Width, 100)])]);

    assert_eq!(collector.constraints.len(), 1);
    match &collector.constraints[0] {
        LayoutConstraint::Fixed { variable, value, .. } => {
            assert_eq!(variable.element_id, "a");
            assert_eq!(variable.property, LayoutProperty::Width);
            assert_eq!(*value, Num::from_int(100));
        }
        _ => panic!("Expected Fixed constraint"),
    }
}

// rect a [size: 50]
#[test]
fn test_collect_intrinsic_size() {
    let collector = collect(vec![rect("a", vec![num_mod(StyleKey::Size, 50)])]);
    assert_eq!(collector.constraints.len(), 2);
}

// rect a; rect b; constrain a.left = b.left
#[test]
fn test_collect_constrain_equality() {
    let collector = collect(vec![
        rect("a", vec![]),
        rect("b", vec![]),
        constrain(ConstraintExpr::Equal {
            left: prop("a", ConstraintProperty::Left),
            right: prop("b", ConstraintProperty::Left),
        }),
    ]);

    let eq_constraint = collector.constraints.iter().find(|c| matches!(c, LayoutConstraint::Equal { .. }));
    assert!(eq_constraint.is_some());
    if let Some(LayoutConstraint::Equal { left, right, offset, .. }) = eq_constraint {
        assert_eq!(left.element_id, "a");
        assert_eq!(right.element_id, "b");
        assert_eq!(*offset, Num::from_int(0));
    }
}

// rect a; rect b; constrain a.x = b.x + 20
#[test]
fn test_collect_constrain_with_offset() {
    let collector = collect(vec![
        rect("a", vec![]),
        rect("b", vec![]),
        constrain(ConstraintExpr::EqualWithOffset {
            left: prop("a", ConstraintProperty::X),
            right: prop("b", ConstraintProperty::X),
            offset: Num::from_int(20),
        }),
    ]);

    let eq_constraint = collector.constraints.iter().find(|c| matches!(c, LayoutConstraint::Equal { .. }));
    assert!(eq_constraint.is_some());
    if let Some(LayoutConstraint::Equal { offset, .. }) = eq_constraint {
        assert_eq!(*offset, Num::from_int(20));
    }
}

// rect a; constrain a.width = 150
#[test]
fn test_collect_constrain_constant() {
    let collector = collect(vec![
        rect("a", vec![]),
        constrain(ConstraintExpr::Constant { left: prop("a", ConstraintProperty::Width), value: Num::from_int(150) }),
    ]);

    let fixed_constraints: Vec<_> =
        collector.constraints.iter().filter(|c| matches!(c, LayoutConstraint::Fixed { .. })).collect();
    assert!(fixed_constraints.len() >= 1);
    let user_constraint = fixed_constraints.iter().find(|c| {
        if let LayoutConstraint::Fixed { value, source, .. } = c {
            *value == Num::from_int(150) && source.origin == ConstraintOrigin::UserDefined
        } else {
            false
        }
    });
    assert!(user_constraint.is_some());
}

// rect a; constrain a.width >= 50
#[test]
fn test_collect_constrain_inequality() {
    let collector = collect(vec![
        rect("a", vec![]),
        constrain(ConstraintExpr::GreaterOrEqual { left: prop("a", ConstraintProperty::Width), value: Num::from_int(50) }),
    ]);

    let ge_constraint =
        collector.constraints.iter().find(|c| matches!(c, LayoutConstraint::GreaterOrEqual { .. }));
    assert!(ge_constraint.is_some());
    if let Some(LayoutConstraint::GreaterOrEqual { value, .. }) = ge_constraint {
        assert_eq!(*value, Num::from_int(50));
    }
}

// rect a; rect b; rect c; constrain a.x = midpoint(b, c)
#[test]
fn test_collect_constrain_midpoint() {
    let collector = collect(vec![
        rect("a", vec![]),
        rect("b", vec![]),
        rect("c", vec![]),
        constrain(ConstraintExpr::Midpoint { target: prop("a", ConstraintProperty::X), a: ident("b"), b: ident("c") }),
    ]);

    let mid_constraint = collector.constraints.iter().find(|c| matches!(c, LayoutConstraint::Midpoint { .. }));
    assert!(mid_constraint.is_some());
    if let Some(LayoutConstraint::Midpoint { target, a, b, .. }) = mid_constraint {
        assert_eq!(target.element_id, "a");
        assert_eq!(a.element_id, "b");
        assert_eq!(b.element_id, "c");
    }
}

// row { rect a rect b rect c }
#[test]
fn test_collect_row_constraints() {
    let collector = collect(vec![sp(Statement::Layout(LayoutDecl {
        layout_type: sp(LayoutType::Row),
        name: None,
        children: vec![rect("a", vec![]), rect("b", vec![]), rect("c", vec![])],
        modifiers: vec![],
    }))]);

    let layout_constraints: Vec<_> = collector
        .constraints
        .iter()
        .filter(|c| {
            if let LayoutConstraint::Equal { source, .. } = c {
                source.origin == ConstraintOrigin::LayoutContainer
            } else {
                false
            }
        })
        .collect();
    assert_eq!(layout_constraints.len(), 4);
}

#[test]
fn constant_constraint_has_exact_variable() {
    let collector = collect(vec![constrain(ConstraintExpr::Constant {
        left: prop("box", ConstraintProperty::Y),
        value: Num::from_milli(12500),
    })]);
    assert_eq!(collector.constraints.len(), 1);
    match &collector.constraints[0] {
        LayoutConstraint::Fixed { variable, value, source } => {
            assert_eq!(variable.element_id, "box");
            assert_eq!(variable.property, LayoutProperty::Y);
            assert_eq!(value.milli, 12500);
            assert_eq!(source.origin, ConstraintOrigin::UserDefined);
        }
        _ => panic!("Expected Fixed constraint"),
    }
}
