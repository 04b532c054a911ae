use agent_illustrator::ast::{Identifier, Span, Spanned, StyleKey, StyleModifier, StyleValue};
use agent_illustrator::layout::routing::{
    extract_label_at, extract_label_offset, extract_label_position, extract_routing_mode, extract_via_references,
    LabelPosition, RoutingMode,
};
use agent_illustrator::num::Num;

fn sp<T>(node: T) -> Spanned<T> {
    Spanned { node, span: Span::new(0, 0) }
}

fn modifier(key: StyleKey, value: StyleValue) -> Spanned<StyleModifier> {
    sp(StyleModifier { key: sp(key), value: sp(value) })
}

#[test]
fn test_routing_mode_curved_exists() {
    assert_ne!(RoutingMode::Curved, RoutingMode::Direct);
    assert_ne!(RoutingMode::Curved, RoutingMode::Orthogonal);
}

#[test]
fn test_routing_mode_default_is_orthogonal() {
    assert_eq!(RoutingMode::default(), RoutingMode::Orthogonal);
}

#[test]
fn routing_mode_from_first_known_keyword() {
    let mods = vec![
        modifier(StyleKey::Routing, StyleValue::Keyword("zigzag".to_string())),
        modifier(StyleKey::Routing, StyleValue::Keyword("curved".to_string())),
        modifier(StyleKey::Routing, StyleValue::Keyword("direct".to_string())),
    ];
    assert_eq!(extract_routing_mode(&mods), RoutingMode::Curved);
}

#[test]
fn routing_mode_defaults_without_modifier() {
    let mods = vec![modifier(StyleKey::Fill, StyleValue::Keyword("direct".to_string()))];
    assert_eq!(extract_routing_mode(&mods), RoutingMode::Orthogonal);
    assert_eq!(extract_routing_mode(&Vec::new()), RoutingMode::Orthogonal);
}

#[test]
fn via_references_in_order() {
    let mods = vec![
        modifier(StyleKey::Custom("via".to_string()), StyleValue::Identifier(Identifier("c1".to_string()))),
        modifier(StyleKey::Custom("other".to_string()), StyleValue::Identifier(Identifier("x".to_string()))),
        modifier(
            StyleKey::Custom("via".to_string()),
            StyleValue::IdentifierList(vec![Identifier("c2".to_string()), Identifier("c3".to_string())]),
        ),
        modifier(StyleKey::Custom("via".to_string()), StyleValue::Keyword("c4".to_string())),
    ];
    assert_eq!(extract_via_references(&mods), vec!["c1", "c2", "c3", "c4"]);
}

fn number(v: i64) -> StyleValue {
    StyleValue::Number { value: Num::from_milli(v), unit: None }
}

#[test]
fn connection_label_placement_modifiers() {
    let mods = vec![
        modifier(StyleKey::LabelPosition, StyleValue::Keyword("above".to_string())),
        modifier(StyleKey::LabelPosition, StyleValue::Keyword("left".to_string())),
        modifier(StyleKey::LabelOffset, number(-3000)),
        modifier(StyleKey::LabelAt, number(2500)),
    ];
    assert_eq!(extract_label_position(&mods), Some(LabelPosition::Left));
    assert_eq!(extract_label_offset(&mods), Num::from_int(0));
    assert_eq!(extract_label_at(&mods), Num::from_int(1));
    let none: Vec<Spanned<StyleModifier>> = vec![];
    assert_eq!(extract_label_position(&none), None);
    assert_eq!(extract_label_offset(&none), Num::from_int(10));
    assert_eq!(extract_label_at(&none), Num::from_milli(500));
    let mid = vec![modifier(StyleKey::LabelAt, number(250)), modifier(StyleKey::LabelOffset, number(4000))];
    assert_eq!(extract_label_at(&mid), Num::from_milli(250));
    assert_eq!(extract_label_offset(&mid), Num::from_int(4));
}
