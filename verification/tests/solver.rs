use agent_illustrator::ast::Span;
use agent_illustrator::layout::solver::{
    describe_constraint, refusal_to_error, AddConstraintFailure, ConstraintSource, LayoutConstraint,
    LayoutProperty, LayoutVariable, SolverError,
};
use agent_illustrator::num::Num;

fn n(v: i32) -> Num {
    Num::from_int(v)
}

#[test]
fn constraints_are_described_like_the_solver_reports_them() {
    let fixed = LayoutConstraint::Fixed {
        variable: LayoutVariable::x("a"),
        value: Num::from_milli(12500),
        source: ConstraintSource::intrinsic("f"),
    };
    assert_eq!(describe_constraint(&fixed), "a.X = 12.5");
    let eq = LayoutConstraint::Equal {
        left: LayoutVariable::new("a", LayoutProperty::CenterY),
        right: LayoutVariable::new("b", LayoutProperty::Bottom),
        offset: n(0),
        source: ConstraintSource::intrinsic("e"),
    };
    assert_eq!(describe_constraint(&eq), "a.CenterY = b.Bottom");
    let eq2 = LayoutConstraint::Equal {
        left: LayoutVariable::width("a"),
        right: LayoutVariable::width("b"),
        offset: n(-5),
        source: ConstraintSource::intrinsic("e"),
    };
    assert_eq!(describe_constraint(&eq2), "a.Width = b.Width + -5");
    let mid = LayoutConstraint::Midpoint {
        target: LayoutVariable::x("m"),
        a: LayoutVariable::x("p"),
        b: LayoutVariable::x("q"),
        offset: n(3),
        source: ConstraintSource::intrinsic("m"),
    };
    assert_eq!(describe_constraint(&mid), "m.X = midpoint(p.X, q.X) + 3");
    let ge = LayoutConstraint::GreaterOrEqual {
        variable: LayoutVariable::height("h"),
        value: n(10),
        source: ConstraintSource::intrinsic("g"),
    };
    assert_eq!(describe_constraint(&ge), "h.Height >= 10");
}

#[test]
fn refused_constraints_become_solver_errors() {
    let src = ConstraintSource::user(Span::new(1, 2), "new one");
    let added = vec![ConstraintSource::intrinsic("old one")];
    match refusal_to_error(&AddConstraintFailure::Unsatisfiable, &src, &added, "a.X = 1") {
        SolverError::Unsatisfiable { conflicting, reason } => {
            assert_eq!(conflicting.len(), 2);
            assert_eq!(conflicting[0].description, "new one");
            assert_eq!(conflicting[1].description, "old one");
            assert_eq!(reason, "Cannot satisfy a.X = 1: conflicts with existing constraints");
        }
        other => panic!("unexpected {:?}", other),
    }
    match refusal_to_error(&AddConstraintFailure::Duplicate, &src, &added, "a.X = 1") {
        SolverError::Internal(m) => assert_eq!(m, "Duplicate constraint: a.X = 1"),
        other => panic!("unexpected {:?}", other),
    }
    match refusal_to_error(&AddConstraintFailure::Internal("boom".to_string()), &src, &added, "a.X = 1") {
        SolverError::Internal(m) => assert_eq!(m, "Internal solver error for a.X = 1: boom"),
        other => panic!("unexpected {:?}", other),
    }
}
