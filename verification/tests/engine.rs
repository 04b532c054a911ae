use agent_illustrator::ast::{
    AnchorDecl, ConstraintDecl, Document, GroupDecl, Identifier, PositionRelation, ShapeDecl, ShapeType,
    Span, Spanned, Statement, StyleKey, StyleModifier, StyleValue,
};
use agent_illustrator::collections::NameMap;
use agent_illustrator::layout::engine::{
    are_conflicting, build_element_to_template_map, collect_position_offsets, build_group_anchor_decl_map, classify_constraint,
    detect_conflicts, extract_label, extract_label_statement, extract_role_label_statement,
    get_constraint_referenced_elements, get_constraint_target_var, has_role_label, partition_constraints,
    ConstraintGraph, ConstraintScope,
};
use agent_illustrator::layout::error::LayoutError;
use agent_illustrator::layout::solver::{
    ConstraintSource, LayoutConstraint, LayoutProperty, LayoutVariable,
};
use agent_illustrator::num::Num;

fn sp<T>(node: T) -> Spanned<T> {
    Spanned { node, span: Span::new(0, 0) }
}

fn ident(name: &str) -> Spanned<Identifier> {
    sp(Identifier(name.to_string()))
}

fn rect(name: &str) -> Spanned<Statement> {
    sp(Statement::Shape(ShapeDecl { shape_type: sp(ShapeType::Rectangle), name: Some(ident(name)), modifiers: vec![] }))
}

fn rect_with(name: &str, modifiers: Vec<Spanned<StyleModifier>>) -> Spanned<Statement> {
    sp(Statement::Shape(ShapeDecl { shape_type: sp(ShapeType::Rectangle), name: Some(ident(name)), modifiers }))
}

fn group(name: &str, children: Vec<Spanned<Statement>>, anchors: Vec<AnchorDecl>) -> Spanned<Statement> {
    sp(Statement::Group(GroupDecl {
        name: Some(ident(name)),
        children,
        modifiers: vec![],
        anchors,
        is_template_instance: false,
    }))
}

fn place(subject: &str, relation: PositionRelation, anchor: &str) -> Spanned<Statement> {
    sp(Statement::Constraint(ConstraintDecl {
        subject: ident(subject),
        relation: Some(sp(relation)),
        anchor: Some(ident(anchor)),
        modifiers: vec![],
    }))
}

fn string_mod(key: StyleKey, v: &str) -> Spanned<StyleModifier> {
    sp(StyleModifier { key: sp(key), value: sp(StyleValue::String(v.to_string())) })
}

fn keyword_mod(key: StyleKey, v: &str) -> Spanned<StyleModifier> {
    sp(StyleModifier { key: sp(key), value: sp(StyleValue::Keyword(v.to_string())) })
}

fn n(v: i32) -> Num {
    Num::from_int(v)
}

// The document after template resolution of:
//   template "person" { rect head; rect body; constrain body.top = head.bottom + 5 }
//   person alice
//   person bob
//   rect server
fn resolved_people() -> Document {
    let instance = |name: &str| {
        sp(Statement::Group(GroupDecl {
            name: Some(ident(name)),
            children: vec![rect(&format!("{}_head", name)), rect(&format!("{}_body", name))],
            modifiers: vec![],
            anchors: vec![],
            is_template_instance: true,
        }))
    };
    Document { statements: vec![instance("alice"), instance("bob"), rect("server")] }
}

#[test]
fn test_build_element_to_template_map() {
    let doc = resolved_people();
    let map = build_element_to_template_map(&doc);

    // Alice's children should map to "alice"
    assert_eq!(map.get("alice_head"), Some(&"alice".to_string()));
    assert_eq!(map.get("alice_body"), Some(&"alice".to_string()));

    // Bob's children should map to "bob"
    assert_eq!(map.get("bob_head"), Some(&"bob".to_string()));
    assert_eq!(map.get("bob_body"), Some(&"bob".to_string()));

    // Top-level elements should not be in the map
    assert!(map.get("server").is_none());
}

#[test]
fn test_classify_constraint_local() {
    let mut element_map = NameMap::new();
    element_map.insert("alice_head".to_string(), "alice".to_string());
    element_map.insert("alice_body".to_string(), "alice".to_string());

    // Constraint between two elements in the same template
    let constraint = LayoutConstraint::Equal {
        left: LayoutVariable::y("alice_body"),
        right: LayoutVariable::y("alice_head"),
        offset: n(25),
        source: ConstraintSource::layout(Span::new(0, 10), "body below head"),
    };

    let scope = classify_constraint(&constraint, &element_map);
    assert_eq!(scope, ConstraintScope::Local("alice".to_string()));
}

#[test]
fn test_classify_constraint_global() {
    let mut element_map = NameMap::new();
    element_map.insert("alice_head".to_string(), "alice".to_string());
    element_map.insert("bob_head".to_string(), "bob".to_string());

    // Constraint between elements in different templates
    let constraint = LayoutConstraint::Equal {
        left: LayoutVariable::x("bob_head"),
        right: LayoutVariable::x("alice_head"),
        offset: n(100),
        source: ConstraintSource::user(Span::new(0, 10), "bob right of alice"),
    };

    let scope = classify_constraint(&constraint, &element_map);
    assert_eq!(scope, ConstraintScope::Global);
}

#[test]
fn test_classify_constraint_with_template_instance_set() {
    let element_map = NameMap::new(); // Empty map - shouldn't matter

    // Constraint with template_instance explicitly set
    let constraint = LayoutConstraint::Fixed {
        variable: LayoutVariable::x("alice_head"),
        value: n(100),
        source: ConstraintSource::user(Span::new(0, 10), "head position").with_template_instance("alice"),
    };

    let scope = classify_constraint(&constraint, &element_map);
    assert_eq!(scope, ConstraintScope::Local("alice".to_string()));
}

#[test]
fn test_partition_constraints() {
    let mut element_map = NameMap::new();
    element_map.insert("alice_head".to_string(), "alice".to_string());
    element_map.insert("alice_body".to_string(), "alice".to_string());
    element_map.insert("bob_head".to_string(), "bob".to_string());

    let constraints = vec![
        // Local to alice
        LayoutConstraint::Equal {
            left: LayoutVariable::y("alice_body"),
            right: LayoutVariable::y("alice_head"),
            offset: n(25),
            source: ConstraintSource::layout(Span::new(0, 10), "alice internal"),
        },
        // Global (cross-template)
        LayoutConstraint::Equal {
            left: LayoutVariable::x("bob_head"),
            right: LayoutVariable::x("alice_head"),
            offset: n(100),
            source: ConstraintSource::user(Span::new(0, 10), "global positioning"),
        },
        // Local to bob (single element, uses element_map)
        LayoutConstraint::Fixed {
            variable: LayoutVariable::width("bob_head"),
            value: n(20),
            source: ConstraintSource::intrinsic("bob head width"),
        },
    ];

    let (local, global) = partition_constraints(&constraints, &element_map);

    // Should have alice's constraint
    assert!(local.contains_key("alice"));
    assert_eq!(local.get("alice").unwrap().len(), 1);

    // Should have bob's constraint
    assert!(local.contains_key("bob"));
    assert_eq!(local.get("bob").unwrap().len(), 1);

    // Should have one global constraint
    assert_eq!(global.len(), 1);
}

#[test]
fn classify_global_when_an_element_is_outside_every_template() {
    let mut element_map = NameMap::new();
    element_map.insert("alice_head".to_string(), "alice".to_string());
    let constraint = LayoutConstraint::Equal {
        left: LayoutVariable::x("alice_head"),
        right: LayoutVariable::x("server"),
        offset: n(0),
        source: ConstraintSource::user(Span::new(0, 1), "mixed"),
    };
    assert_eq!(classify_constraint(&constraint, &element_map), ConstraintScope::Global);
}

#[test]
fn partition_keeps_every_constraint_in_order() {
    let mut element_map = NameMap::new();
    element_map.insert("a_x".to_string(), "a".to_string());
    let constraints = vec![
        LayoutConstraint::Fixed {
            variable: LayoutVariable::x("top"),
            value: n(1),
            source: ConstraintSource::intrinsic("first"),
        },
        LayoutConstraint::Fixed {
            variable: LayoutVariable::x("a_x"),
            value: n(2),
            source: ConstraintSource::intrinsic("local"),
        },
        LayoutConstraint::Fixed {
            variable: LayoutVariable::y("top"),
            value: n(3),
            source: ConstraintSource::intrinsic("second"),
        },
    ];
    let (local, global) = partition_constraints(&constraints, &element_map);
    assert_eq!(local.len(), 1);
    assert_eq!(global.len(), 2);
    assert_eq!(global[0].source().description, "first");
    assert_eq!(global[1].source().description, "second");
    assert_eq!(local.get("a").unwrap()[0].source().description, "local");
}

#[test]
fn element_map_uses_prefix_outside_groups() {
    let doc = Document { statements: vec![rect("carol_arm"), rect("plain")] };
    let map = build_element_to_template_map(&doc);
    assert_eq!(map.get("carol_arm"), Some(&"carol".to_string()));
    assert!(map.get("plain").is_none());
}

#[test]
fn target_var_and_referenced_elements() {
    let c = LayoutConstraint::Midpoint {
        target: LayoutVariable::x("m"),
        a: LayoutVariable::x("a"),
        b: LayoutVariable::x("b"),
        offset: n(0),
        source: ConstraintSource::intrinsic("mid"),
    };
    assert_eq!(get_constraint_target_var(&c), Some(("m".to_string(), LayoutProperty::X)));
    assert_eq!(get_constraint_referenced_elements(&c), vec!["m".to_string(), "a".to_string(), "b".to_string()]);

    let e = LayoutConstraint::Equal {
        left: LayoutVariable::height("p"),
        right: LayoutVariable::width("q"),
        offset: n(3),
        source: ConstraintSource::intrinsic("eq"),
    };
    assert_eq!(get_constraint_target_var(&e), Some(("p".to_string(), LayoutProperty::Height)));
    assert_eq!(get_constraint_referenced_elements(&e), vec!["p".to_string(), "q".to_string()]);
}

#[test]
fn conflicting_relations() {
    assert!(are_conflicting(&PositionRelation::RightOf, &PositionRelation::LeftOf));
    assert!(are_conflicting(&PositionRelation::Below, &PositionRelation::Above));
    assert!(!are_conflicting(&PositionRelation::RightOf, &PositionRelation::Above));
    assert!(!are_conflicting(&PositionRelation::Inside, &PositionRelation::Inside));
}

#[test]
fn detect_conflicts_reports_opposing_pair() {
    let doc = Document {
        statements: vec![
            rect("a"),
            rect("b"),
            rect("c"),
            place("a", PositionRelation::RightOf, "b"),
            group("g", vec![place("a", PositionRelation::LeftOf, "c")], vec![]),
        ],
    };
    match detect_conflicts(&doc) {
        Err(LayoutError::ConflictingConstraints { constraints, reason }) => {
            assert_eq!(constraints, vec!["a RightOf b".to_string(), "a LeftOf c".to_string()]);
            assert_eq!(reason, "Cannot satisfy opposing position constraints on the same element");
        }
        other => panic!("expected a conflict, got {:?}", other),
    }
}

#[test]
fn detect_conflicts_accepts_compatible_relations() {
    let doc = Document {
        statements: vec![
            place("a", PositionRelation::RightOf, "b"),
            place("a", PositionRelation::Below, "c"),
            place("b", PositionRelation::LeftOf, "c"),
        ],
    };
    assert!(detect_conflicts(&doc).is_ok());
}

#[test]
fn topological_order_puts_anchors_first() {
    let doc = Document {
        statements: vec![
            place("c", PositionRelation::RightOf, "b"),
            place("b", PositionRelation::RightOf, "a"),
        ],
    };
    let graph = ConstraintGraph::from_document(&doc);
    let order = graph.topological_order().unwrap();
    assert_eq!(order.len(), 3);
    let pos = |x: &str| order.iter().position(|o| o == x).unwrap();
    assert!(pos("a") < pos("b"));
    assert!(pos("b") < pos("c"));
}

#[test]
fn topological_order_reports_cycle() {
    let doc = Document {
        statements: vec![
            place("a", PositionRelation::RightOf, "b"),
            place("b", PositionRelation::Below, "a"),
            place("c", PositionRelation::Above, "a"),
        ],
    };
    let graph = ConstraintGraph::from_document(&doc);
    match graph.topological_order() {
        Err(LayoutError::CircularConstraint { cycle }) => {
            assert!(cycle.contains(&"a".to_string()));
            assert!(cycle.contains(&"b".to_string()));
            // c waits on a, so it is left over too
            assert!(cycle.contains(&"c".to_string()));
            assert_eq!(cycle.len(), 3);
        }
        other => panic!("expected a cycle, got {:?}", other),
    }
}

#[test]
fn group_anchor_map_later_declaration_wins() {
    let anchor = |name: &str| AnchorDecl { name: ident(name) };
    let doc = Document {
        statements: vec![
            group("g", vec![], vec![anchor("in"), anchor("out")]),
            group("h", vec![group("inner", vec![], vec![anchor("tip")])], vec![]),
            group("g", vec![], vec![anchor("only")]),
        ],
    };
    let map = build_group_anchor_decl_map(&doc);
    let g = map.get("g").unwrap();
    assert_eq!(g.len(), 1);
    assert_eq!(g[0].name.node.0, "only");
    assert_eq!(map.get("inner").unwrap()[0].name.node.0, "tip");
    assert!(map.get("h").is_none());
}

#[test]
fn labels_of_containers() {
    let mods = vec![keyword_mod(StyleKey::Role, "title"), string_mod(StyleKey::Label, "Hello"), string_mod(StyleKey::Label, "Later")];
    assert_eq!(extract_label(&mods), Some("Hello".to_string()));
    assert_eq!(extract_label(&vec![]), None);

    let children = vec![
        rect("a"),
        sp(Statement::Label(Box::new(Statement::Shape(ShapeDecl {
            shape_type: sp(ShapeType::Rectangle),
            name: Some(ident("lbl")),
            modifiers: vec![],
        })))),
        rect_with("b", vec![keyword_mod(StyleKey::Role, "label")]),
    ];
    match extract_label_statement(&children) {
        Some(Statement::Shape(s)) => assert_eq!(s.name.as_ref().unwrap().node.0, "lbl"),
        _ => panic!("expected the label statement"),
    }
    match extract_role_label_statement(&children) {
        Some(Statement::Shape(s)) => assert_eq!(s.name.as_ref().unwrap().node.0, "b"),
        _ => panic!("expected the role label"),
    }
    assert!(has_role_label(&children[2].node));
    assert!(!has_role_label(&children[0].node));
    assert!(extract_label_statement(&vec![rect("x")]).is_none());
}

fn num_mod(key: StyleKey, v: i32) -> Spanned<StyleModifier> {
    sp(StyleModifier { key: sp(key), value: sp(StyleValue::Number { value: n(v), unit: None }) })
}

#[test]
fn position_offsets_of_placements() {
    let placed = |subject: &str, modifiers: Vec<Spanned<StyleModifier>>| {
        sp(Statement::Constraint(ConstraintDecl {
            subject: ident(subject),
            relation: Some(sp(PositionRelation::Below)),
            anchor: Some(ident("base")),
            modifiers,
        }))
    };
    let stmts = vec![
        placed("a", vec![num_mod(StyleKey::X, 10)]),
        placed("b", vec![]),
        group("g", vec![placed("c", vec![num_mod(StyleKey::Y, -4), num_mod(StyleKey::Y, 6), num_mod(StyleKey::Width, 3)])], vec![]),
        placed("d", vec![num_mod(StyleKey::X, 0)]),
    ];
    let offsets = collect_position_offsets(&stmts);
    assert_eq!(offsets, vec![("a".to_string(), n(10), n(0)), ("c".to_string(), n(0), n(6))]);
}

#[test]
fn every_listed_instance_has_local_constraints() {
    let mut element_map = NameMap::new();
    element_map.insert("a_x".to_string(), "a".to_string());
    element_map.insert("b_x".to_string(), "b".to_string());
    let constraints = vec![LayoutConstraint::Fixed {
        variable: LayoutVariable::x("a_x"),
        value: n(1),
        source: ConstraintSource::intrinsic("only a"),
    }];
    let (local, _) = partition_constraints(&constraints, &element_map);
    assert!(local.contains_key("a"));
    assert!(!local.contains_key("b"));
    assert!(local.get("a").unwrap().len() > 0);
}
