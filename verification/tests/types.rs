use agent_illustrator::ast::{ColorValue, ConstraintProperty, Identifier, Span, Spanned, StyleKey, StyleModifier, StyleValue};
use agent_illustrator::layout::types::{AnchorDirection, ResolvedStyles};
use agent_illustrator::num::Num;

fn at<T>(node: T, start: usize, end: usize) -> Spanned<T> {
    Spanned { node, span: Span::new(start, end) }
}

fn modifier(key: StyleKey, value: StyleValue) -> Spanned<StyleModifier> {
    at(StyleModifier { key: at(key, 0, 1), value: at(value, 2, 3) }, 0, 3)
}

#[test]
fn test_resolved_styles_defaults() {
    let styles = ResolvedStyles::with_defaults();
    assert_eq!(styles.fill, Some("#f0f0f0".to_string()));
    assert_eq!(styles.stroke, Some("#333333".to_string()));
    assert_eq!(styles.stroke_width, Some(Num::from_int(2)));
}

#[test]
fn test_resolved_styles_rotation() {
    let modifiers = vec![at(
        StyleModifier {
            key: at(StyleKey::Rotation, 0, 8),
            value: at(StyleValue::Number { value: Num::from_int(45), unit: None }, 10, 12),
        },
        0,
        12,
    )];

    let styles = ResolvedStyles::from_modifiers(&modifiers);
    assert_eq!(styles.rotation, Some(Num::from_int(45)));
}

#[test]
fn styles_from_modifiers_in_order() {
    let modifiers = vec![
        modifier(StyleKey::Fill, StyleValue::Color(ColorValue::Symbolic("accent-dark".to_string()))),
        modifier(StyleKey::Stroke, StyleValue::Identifier(Identifier("red".to_string()))),
        modifier(StyleKey::StrokeDasharray, StyleValue::Keyword("dashed".to_string())),
        modifier(StyleKey::Class, StyleValue::Keyword("a".to_string())),
        modifier(StyleKey::Class, StyleValue::String("b".to_string())),
        modifier(StyleKey::Opacity, StyleValue::String("not a number".to_string())),
        modifier(StyleKey::Fill, StyleValue::Color(ColorValue::Hex("#123456".to_string()))),
        modifier(StyleKey::Width, StyleValue::Number { value: Num::from_int(10), unit: None }),
    ];
    let styles = ResolvedStyles::from_modifiers(&modifiers);
    assert_eq!(styles.fill, Some("#123456".to_string()));
    assert_eq!(styles.stroke, Some("red".to_string()));
    assert_eq!(styles.stroke_dasharray, Some("8,4".to_string()));
    assert_eq!(styles.css_classes, vec!["a".to_string(), "b".to_string()]);
    assert_eq!(styles.opacity, None);
    assert_eq!(styles.font_size, None);
}

#[test]
fn colors_become_css() {
    assert_eq!(
        ResolvedStyles::color_to_css(&StyleValue::Color(ColorValue::Symbolic("foreground-1".to_string()))),
        Some("var(--foreground-1)".to_string())
    );
    assert_eq!(ResolvedStyles::color_to_css(&StyleValue::Color(ColorValue::Named("blue".to_string()))), Some("blue".to_string()));
    assert_eq!(ResolvedStyles::color_to_css(&StyleValue::Number { value: Num::from_int(1), unit: None }), None);
}

#[test]
fn merge_prefers_the_other_styles() {
    let base = ResolvedStyles::with_defaults();
    let over = ResolvedStyles::from_modifiers(&vec![
        modifier(StyleKey::Fill, StyleValue::Keyword("black".to_string())),
        modifier(StyleKey::Class, StyleValue::Keyword("x".to_string())),
        modifier(StyleKey::StrokeDasharray, StyleValue::Keyword("2,1".to_string())),
    ]);
    let merged = base.merge(&over);
    assert_eq!(merged.fill, Some("black".to_string()));
    assert_eq!(merged.stroke, Some("#333333".to_string()));
    assert_eq!(merged.stroke_dasharray, Some("2,1".to_string()));
    assert_eq!(merged.font_size, Some(Num::from_int(14)));
    assert_eq!(merged.css_classes, vec!["x".to_string()]);
}

#[test]
fn test_anchor_direction_to_degrees() {
    assert_eq!(AnchorDirection::Up.to_degrees(), Num::from_int(270));
    assert_eq!(AnchorDirection::Down.to_degrees(), Num::from_int(90));
    assert_eq!(AnchorDirection::Left.to_degrees(), Num::from_int(180));
    assert_eq!(AnchorDirection::Right.to_degrees(), Num::from_int(0));
    assert_eq!(AnchorDirection::Angle(Num::from_int(45)).to_degrees(), Num::from_int(45));
}

#[test]
fn test_anchor_direction_from_property() {
    assert_eq!(AnchorDirection::from_property(&ConstraintProperty::Left), AnchorDirection::Left);
    assert_eq!(AnchorDirection::from_property(&ConstraintProperty::Right), AnchorDirection::Right);
    assert_eq!(AnchorDirection::from_property(&ConstraintProperty::Top), AnchorDirection::Up);
    assert_eq!(AnchorDirection::from_property(&ConstraintProperty::Bottom), AnchorDirection::Down);
}

#[test]
fn other_properties_point_down() {
    assert_eq!(AnchorDirection::from_property(&ConstraintProperty::CenterX), AnchorDirection::Down);
    assert_eq!(AnchorDirection::from_property(&ConstraintProperty::Anchor("in".to_string())), AnchorDirection::Down);
}
