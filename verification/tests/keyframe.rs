use agent_illustrator::ast::{
    ConstrainDecl, ConstraintExpr, ConstraintProperty, Document, ElementPath, Identifier, KeyframeDecl,
    KeyframeOp, PropertyRef, ShapeDecl, ShapeType, Span, Spanned, Statement, StyleKey, StyleModifier,
    StyleValue,
};
use agent_illustrator::collections::{NameMap, NameSet};
use agent_illustrator::layout::keyframe::{
    compute_frame_states, extract_keyframes, is_animatable, rewrite_constraints_for_transforms,
    visible_elements_in_frame, FrameState,
};
use agent_illustrator::num::Num;

fn sp<T>(node: T) -> Spanned<T> {
    Spanned { node, span: Span::new(0, 0) }
}

fn make_id(name: &str) -> Spanned<Identifier> {
    sp(Identifier(name.to_string()))
}

fn modi(key: StyleKey, v: i32) -> Spanned<StyleModifier> {
    sp(StyleModifier { key: sp(key), value: sp(StyleValue::Number { value: Num::from_int(v), unit: None }) })
}

fn make_keyframe(name: &str, ops: Vec<KeyframeOp>) -> KeyframeDecl {
    KeyframeDecl {
        name: sp(name.to_string()),
        operations: ops.into_iter().map(sp).collect(),
        no_resolve: false,
    }
}

fn names(xs: &[&str]) -> NameSet {
    let mut s = NameSet::new();
    for x in xs {
        s.insert(x.to_string());
    }
    s
}

#[test]
fn transforms_persist_and_merge_forward() {
    let kf1 = make_keyframe("a", vec![KeyframeOp::Transform {
        target: make_id("box"),
        modifiers: vec![modi(StyleKey::Width, 360)],
    }]);
    let kf2 = make_keyframe("b", vec![KeyframeOp::Transform {
        target: make_id("box"),
        modifiers: vec![modi(StyleKey::X, 120)],
    }]);
    let states = compute_frame_states(&[&kf1, &kf2]);
    // Frame b must still carry the width from frame a, plus its own x.
    let box_mods = states[1].transforms.get("box").expect("box transformed in frame b");
    let keys: Vec<&StyleKey> = box_mods.iter().map(|m| &m.node.key.node).collect();
    assert!(keys.iter().any(|k| matches!(k, StyleKey::Width)), "width persists into frame b, got {:?}", keys);
    assert!(keys.iter().any(|k| matches!(k, StyleKey::X)), "x added in frame b");
}

#[test]
fn test_cumulative_show_hide() {
    let kf1 = make_keyframe("startup", vec![KeyframeOp::Hide(vec![make_id("a"), make_id("b"), make_id("c")])]);
    let kf2 = make_keyframe("step1", vec![KeyframeOp::Show(vec![make_id("a")])]);
    let kf3 = make_keyframe("step2", vec![
        KeyframeOp::Show(vec![make_id("b")]),
        KeyframeOp::Hide(vec![make_id("a")]),
    ]);

    let keyframes: Vec<&KeyframeDecl> = vec![&kf1, &kf2, &kf3];
    let states = compute_frame_states(&keyframes);

    assert_eq!(states.len(), 3);

    // Frame 0 (startup): a, b, c all hidden
    assert!(states[0].hidden_elements.contains("a"));
    assert!(states[0].hidden_elements.contains("b"));
    assert!(states[0].hidden_elements.contains("c"));

    // Frame 1 (step1): a shown, b and c still hidden
    assert!(!states[1].hidden_elements.contains("a"));
    assert!(states[1].hidden_elements.contains("b"));
    assert!(states[1].hidden_elements.contains("c"));

    // Frame 2 (step2): b shown, a re-hidden, c still hidden
    assert!(states[2].hidden_elements.contains("a"));
    assert!(!states[2].hidden_elements.contains("b"));
    assert!(states[2].hidden_elements.contains("c"));
}

#[test]
fn test_empty_keyframes() {
    let states = compute_frame_states(&[]);
    assert!(states.is_empty());
}

#[test]
fn test_show_without_prior_hide() {
    // Showing something that was never hidden should be a no-op
    let kf = make_keyframe("test", vec![KeyframeOp::Show(vec![make_id("a")])]);
    let states = compute_frame_states(&[&kf]);
    assert!(!states[0].hidden_elements.contains("a"));
}

#[test]
fn test_connection_visibility() {
    let kf1 = make_keyframe("startup", vec![KeyframeOp::Hide(vec![make_id("conn1")])]);
    let kf2 = make_keyframe("reveal", vec![KeyframeOp::Show(vec![make_id("conn1")])]);

    let states = compute_frame_states(&[&kf1, &kf2]);
    assert!(states[0].hidden_connections.contains("conn1"));
    assert!(!states[1].hidden_connections.contains("conn1"));
}

#[test]
fn later_modifier_with_same_key_replaces_earlier() {
    let kf1 = make_keyframe("a", vec![KeyframeOp::Transform {
        target: make_id("box"),
        modifiers: vec![modi(StyleKey::Width, 10), modi(StyleKey::Y, 5)],
    }]);
    let kf2 = make_keyframe("b", vec![KeyframeOp::Transform {
        target: make_id("box"),
        modifiers: vec![modi(StyleKey::Width, 20)],
    }]);
    let states = compute_frame_states(&[&kf1, &kf2]);
    let first = states[0].transforms.get("box").unwrap();
    assert_eq!(first.len(), 2);
    let second = states[1].transforms.get("box").unwrap();
    assert_eq!(second.len(), 2);
    let widths: Vec<&StyleValue> = second
        .iter()
        .filter(|m| matches!(m.node.key.node, StyleKey::Width))
        .map(|m| &m.node.value.node)
        .collect();
    assert_eq!(widths.len(), 1);
    match widths[0] {
        StyleValue::Number { value, .. } => assert_eq!(*value, Num::from_int(20)),
        other => panic!("unexpected value {:?}", other),
    }
    assert_eq!(states[1].name, "b");
}

#[test]
fn frames_keep_names_and_visibility_of_untouched_elements() {
    let kf1 = make_keyframe("one", vec![KeyframeOp::Hide(vec![make_id("x")])]);
    let kf2 = make_keyframe("two", vec![KeyframeOp::Hide(vec![make_id("y")])]);
    let states = compute_frame_states(&[&kf1, &kf2]);
    assert_eq!(states[0].name, "one");
    assert_eq!(states[1].name, "two");
    assert!(states[1].hidden_elements.contains("x"));
    assert!(states[1].hidden_elements.contains("y"));
    assert!(!states[0].hidden_elements.contains("y"));
}

#[test]
fn extract_keyframes_in_document_order() {
    let doc = Document {
        statements: vec![
            sp(Statement::Keyframe(make_keyframe("first", vec![]))),
            sp(Statement::Shape(ShapeDecl { shape_type: sp(ShapeType::Rectangle), name: Some(make_id("r")), modifiers: vec![] })),
            sp(Statement::Keyframe(make_keyframe("second", vec![]))),
        ],
    };
    let kfs = extract_keyframes(&doc);
    assert_eq!(kfs.len(), 2);
    assert_eq!(kfs[0].name.node, "first");
    assert_eq!(kfs[1].name.node, "second");
}

#[test]
fn visible_elements_exclude_hidden_ones() {
    let all = names(&["a", "b", "c"]);
    let state = FrameState {
        name: "f".to_string(),
        hidden_elements: names(&["b", "z"]),
        hidden_connections: NameSet::new(),
        transforms: NameMap::new(),
        no_resolve: false,
    };
    let visible = visible_elements_in_frame(&all, &state);
    assert_eq!(visible.len(), 2);
    assert!(visible.contains("a"));
    assert!(!visible.contains("b"));
    assert!(visible.contains("c"));
}

fn constrain_left(elem: &str, value: i32) -> Spanned<Statement> {
    let left = PropertyRef {
        element: sp(ElementPath::simple(Identifier(elem.to_string()), Span::new(0, 0))),
        property: sp(ConstraintProperty::Left),
    };
    sp(Statement::Constrain(ConstrainDecl {
        expr: ConstraintExpr::Constant { left, value: Num::from_int(value) },
        name: None,
    }))
}

#[test]
fn rewrite_drops_constraints_on_moved_elements() {
    let mut transforms = NameMap::new();
    transforms.insert("moved".to_string(), vec![modi(StyleKey::X, 5)]);
    transforms.insert("recolored".to_string(), vec![sp(StyleModifier {
        key: sp(StyleKey::Fill),
        value: sp(StyleValue::Keyword("red".to_string())),
    })]);
    let state = FrameState {
        name: "f".to_string(),
        hidden_elements: NameSet::new(),
        hidden_connections: NameSet::new(),
        transforms,
        no_resolve: false,
    };
    let doc = Document {
        statements: vec![constrain_left("moved", 1), constrain_left("recolored", 2), constrain_left("other", 3)],
    };
    let out = rewrite_constraints_for_transforms(doc, &state);
    assert_eq!(out.statements.len(), 2);
    let lhs: Vec<String> = out
        .statements
        .iter()
        .map(|s| match &s.node {
            Statement::Constrain(c) => match &c.expr {
                ConstraintExpr::Constant { left, .. } => left.element.node.segments[0].node.0.clone(),
                _ => panic!("unexpected expression"),
            },
            _ => panic!("unexpected statement"),
        })
        .collect();
    assert_eq!(lhs, vec!["recolored".to_string(), "other".to_string()]);
}

#[test]
fn animatable_keys() {
    assert!(is_animatable(&StyleKey::X));
    assert!(is_animatable(&StyleKey::Opacity));
    assert!(is_animatable(&StyleKey::Fill));
    assert!(!is_animatable(&StyleKey::Label));
    assert!(!is_animatable(&StyleKey::Custom("glow".to_string())));
}

#[test]
fn rewrite_keeps_everything_when_nothing_moves() {
    let mut transforms = NameMap::new();
    transforms.insert("a".to_string(), vec![sp(StyleModifier {
        key: sp(StyleKey::Opacity),
        value: sp(StyleValue::Number { value: Num::from_milli(500), unit: None }),
    })]);
    let state = FrameState {
        name: "f".to_string(),
        hidden_elements: NameSet::new(),
        hidden_connections: NameSet::new(),
        transforms,
        no_resolve: false,
    };
    let doc = Document { statements: vec![constrain_left("a", 1), constrain_left("b", 2)] };
    let out = rewrite_constraints_for_transforms(doc, &state);
    assert_eq!(out.statements.len(), 2);
}
