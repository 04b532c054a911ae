//! Plain descriptions of laid-out elements that the document logic reads.

use vstd::prelude::*;
use crate::ast::{ColorValue, ConstraintProperty, LayoutType, ShapeType, Span, Spanned, StyleKey, StyleModifier, StyleValue};
use crate::num::Num;
use crate::strings::{str_eq, views};
use super::text::opt_string_view;

verus! {

/// Type of element in the layout.
#[derive(Debug)]
pub enum ElementType {
    Shape(ShapeType),
    Layout(LayoutType),
    Group,
}

/// Direction a connector approaches an anchor from.
#[derive(Debug, Clone, Copy, PartialEq, Eq, Structural)]
pub enum AnchorDirection {
    /// 270 degrees: the connector comes from above.
    Up,
    /// 90 degrees: the connector comes from below.
    Down,
    /// 180 degrees: the connector comes from the left.
    Left,
    /// 0 degrees: the connector comes from the right.
    Right,
    /// Custom angle in degrees (0 = right, 90 = down, 180 = left, 270 = up).
    Angle(Num),
}

/// The direction a constraint property implies: its side for `left`,
/// `right`, `top` and `bottom`, down for every other property.
pub open spec fn direction_of_property(p: ConstraintProperty) -> AnchorDirection {
    match p {
        ConstraintProperty::Left => AnchorDirection::Left,
        ConstraintProperty::Right => AnchorDirection::Right,
        ConstraintProperty::Top => AnchorDirection::Up,
        ConstraintProperty::Bottom => AnchorDirection::Down,
        _ => AnchorDirection::Down,
    }
}

/// The angle of a direction in degrees.
pub open spec fn direction_degrees(d: AnchorDirection) -> Num {
    match d {
        AnchorDirection::Up => Num { milli: 270000 },
        AnchorDirection::Down => Num { milli: 90000 },
        AnchorDirection::Left => Num { milli: 180000 },
        AnchorDirection::Right => Num { milli: 0 },
        AnchorDirection::Angle(deg) => deg,
    }
}

impl AnchorDirection {
    /// Infer the direction from a constraint property.
    pub fn from_property(prop: &ConstraintProperty) -> (r: AnchorDirection)
        ensures
            r == direction_of_property(*prop),
    {
        match prop {
            ConstraintProperty::Left => AnchorDirection::Left,
            ConstraintProperty::Right => AnchorDirection::Right,
            ConstraintProperty::Top => AnchorDirection::Up,
            ConstraintProperty::Bottom => AnchorDirection::Down,
            _ => AnchorDirection::Down,
        }
    }

    /// The direction's angle in degrees.
    pub fn to_degrees(&self) -> (r: Num)
        ensures
            r == direction_degrees(*self),
    {
        match self {
            AnchorDirection::Up => Num { milli: 270000 },
            AnchorDirection::Down => Num { milli: 90000 },
            AnchorDirection::Left => Num { milli: 180000 },
            AnchorDirection::Right => Num { milli: 0 },
            AnchorDirection::Angle(deg) => *deg,
        }
    }
}

/// Text anchor position for labels.
#[derive(Debug, Clone, Copy, PartialEq, Eq, Structural)]
pub enum TextAnchor {
    Start,
    Middle,
    End,
}

/// Information about a constraint for error reporting.
#[derive(Debug)]
pub struct ConstraintInfo {
    pub subject: String,
    pub relation: String,
    pub anchor: String,
    pub span: Span,
}

/// Resolved style properties ready for rendering.
#[derive(Debug)]
pub struct ResolvedStyles {
    pub fill: Option<String>,
    pub stroke: Option<String>,
    pub stroke_width: Option<Num>,
    pub stroke_dasharray: Option<String>,
    pub opacity: Option<Num>,
    pub font_size: Option<Num>,
    pub css_classes: Vec<String>,
    /// Rotation angle in degrees (clockwise positive, 0 = no rotation).
    pub rotation: Option<Num>,
}

/// What a set of styles holds, as text and numbers.
#[verifier::ext_equal]
pub struct StylesView {
    pub fill: Option<Seq<char>>,
    pub stroke: Option<Seq<char>>,
    pub stroke_width: Option<Num>,
    pub stroke_dasharray: Option<Seq<char>>,
    pub opacity: Option<Num>,
    pub font_size: Option<Num>,
    pub css_classes: Seq<Seq<char>>,
    pub rotation: Option<Num>,
}

/// The view of a set of styles.
pub open spec fn styles_view(s: ResolvedStyles) -> StylesView {
    StylesView {
        fill: opt_string_view(s.fill),
        stroke: opt_string_view(s.stroke),
        stroke_width: s.stroke_width,
        stroke_dasharray: opt_string_view(s.stroke_dasharray),
        opacity: s.opacity,
        font_size: s.font_size,
        css_classes: views(s.css_classes@),
        rotation: s.rotation,
    }
}

/// No style set at all.
pub open spec fn unset_styles() -> StylesView {
    StylesView {
        fill: None,
        stroke: None,
        stroke_width: None,
        stroke_dasharray: None,
        opacity: None,
        font_size: None,
        css_classes: Seq::empty(),
        rotation: None,
    }
}

/// The CSS colour a value stands for: hex and named colours as written,
/// palette tokens as `var(--token)`, bare words as colour names.
pub open spec fn color_css(v: StyleValue) -> Option<Seq<char>> {
    match v {
        StyleValue::Color(ColorValue::Hex(s)) => Some(s@),
        StyleValue::Color(ColorValue::Named(s)) => Some(s@),
        StyleValue::Color(ColorValue::Symbolic(t)) => Some("var(--"@ + t@ + ")"@),
        StyleValue::Keyword(k) => Some(k@),
        StyleValue::Identifier(id) => Some(id.0@),
        _ => None,
    }
}

/// The dash pattern a `stroke_dasharray` keyword stands for.
pub open spec fn dash_pattern(k: Seq<char>) -> Seq<char> {
    if k == "dashed"@ {
        "8,4"@
    } else if k == "dotted"@ {
        "2,2"@
    } else {
        k
    }
}

/// The number a value holds, if it is a number.
pub open spec fn number_of(v: StyleValue) -> Option<Num> {
    match v {
        StyleValue::Number { value, .. } => Some(value),
        _ => None,
    }
}

/// The styles after one modifier: colours, stroke, opacity, font size and
/// rotation replace what was set; a class is added; other keys are handled
/// by the layout and leave the styles alone, as does a value of the wrong kind.
pub open spec fn apply_style(v: StylesView, m: StyleModifier) -> StylesView {
    let val = m.value.node;
    match m.key.node {
        StyleKey::Fill => StylesView { fill: color_css(val), ..v },
        StyleKey::Stroke => StylesView { stroke: color_css(val), ..v },
        StyleKey::StrokeWidth => match number_of(val) {
            Some(n) => StylesView { stroke_width: Some(n), ..v },
            None => v,
        },
        StyleKey::StrokeDasharray => match val {
            StyleValue::String(s) => StylesView { stroke_dasharray: Some(s@), ..v },
            StyleValue::Keyword(k) => StylesView { stroke_dasharray: Some(dash_pattern(k@)), ..v },
            _ => v,
        },
        StyleKey::Opacity => match number_of(val) {
            Some(n) => StylesView { opacity: Some(n), ..v },
            None => v,
        },
        StyleKey::FontSize => match number_of(val) {
            Some(n) => StylesView { font_size: Some(n), ..v },
            None => v,
        },
        StyleKey::Class => match val {
            StyleValue::String(c) => StylesView { css_classes: v.css_classes.push(c@), ..v },
            StyleValue::Keyword(k) => StylesView { css_classes: v.css_classes.push(k@), ..v },
            StyleValue::Identifier(id) => StylesView { css_classes: v.css_classes.push(id.0@), ..v },
            _ => v,
        },
        StyleKey::Rotation => match number_of(val) {
            Some(n) => StylesView { rotation: Some(n), ..v },
            None => v,
        },
        _ => v,
    }
}

/// The styles after a list of modifiers, applied in order.
pub open spec fn styles_from(v: StylesView, mods: Seq<Spanned<StyleModifier>>) -> StylesView
    decreases mods.len(),
{
    if mods.len() == 0 {
        v
    } else {
        apply_style(styles_from(v, mods.drop_last()), mods.last().node)
    }
}

/// `b` over `a`: each property of `b` when it is set, else that of `a`; the
/// classes of `a` then those of `b`.
pub open spec fn merged_styles(a: StylesView, b: StylesView) -> StylesView {
    StylesView {
        fill: if b.fill is Some { b.fill } else { a.fill },
        stroke: if b.stroke is Some { b.stroke } else { a.stroke },
        stroke_width: if b.stroke_width is Some { b.stroke_width } else { a.stroke_width },
        stroke_dasharray: if b.stroke_dasharray is Some { b.stroke_dasharray } else { a.stroke_dasharray },
        opacity: if b.opacity is Some { b.opacity } else { a.opacity },
        font_size: if b.font_size is Some { b.font_size } else { a.font_size },
        css_classes: a.css_classes + b.css_classes,
        rotation: if b.rotation is Some { b.rotation } else { a.rotation },
    }
}

fn copy_text(o: &Option<String>) -> (r: Option<String>)
    ensures
        opt_string_view(r) == opt_string_view(*o),
{
    match o {
        Some(s) => Some(s.clone()),
        None => None,
    }
}

impl Default for ResolvedStyles {
    fn default() -> (r: Self)
        ensures
            styles_view(r) == unset_styles(),
    {
        let r = ResolvedStyles {
            fill: None,
            stroke: None,
            stroke_width: None,
            stroke_dasharray: None,
            opacity: None,
            font_size: None,
            css_classes: Vec::new(),
            rotation: None,
        };
        assert(views(r.css_classes@) =~= Seq::<Seq<char>>::empty());
        r
    }
}

impl ResolvedStyles {
    /// Styles with sensible defaults: light grey fill, dark grey stroke of
    /// width 2, full opacity and 14px text.
    pub fn with_defaults() -> (r: ResolvedStyles)
        ensures
            styles_view(r) == (StylesView {
                fill: Some("#f0f0f0"@),
                stroke: Some("#333333"@),
                stroke_width: Some(Num { milli: 2000 }),
                stroke_dasharray: None,
                opacity: Some(Num { milli: 1000 }),
                font_size: Some(Num { milli: 14000 }),
                css_classes: Seq::empty(),
                rotation: None,
            }),
    {
        let r = ResolvedStyles {
            fill: Some(String::from_str("#f0f0f0")),
            stroke: Some(String::from_str("#333333")),
            stroke_width: Some(Num { milli: 2000 }),
            stroke_dasharray: None,
            opacity: Some(Num { milli: 1000 }),
            font_size: Some(Num { milli: 14000 }),
            css_classes: Vec::new(),
            rotation: None,
        };
        assert(views(r.css_classes@) =~= Seq::<Seq<char>>::empty());
        r
    }

    /// The CSS colour string of a style value: hex and named colours pass
    /// through, palette tokens become `var(--token)`, bare words are colour
    /// names; other values give none.
    pub fn color_to_css(value: &StyleValue) -> (r: Option<String>)
        ensures
            opt_string_view(r) == color_css(*value),
    {
        match value {
            StyleValue::Color(ColorValue::Hex(s)) => Some(s.clone()),
            StyleValue::Color(ColorValue::Named(s)) => Some(s.clone()),
            StyleValue::Color(ColorValue::Symbolic(t)) => {
                let mut css = String::from_str("var(--");
                css.append(t.as_str());
                css.append(")");
                Some(css)
            },
            StyleValue::Keyword(k) => Some(k.clone()),
            StyleValue::Identifier(id) => Some(id.0.clone()),
            _ => None,
        }
    }

    /// Styles from a list of style modifiers, applied in order.
    pub fn from_modifiers(modifiers: &Vec<Spanned<StyleModifier>>) -> (r: ResolvedStyles)
        ensures
            styles_view(r) == styles_from(unset_styles(), modifiers@),
    {
        let mut styles = ResolvedStyles::default();
        let mut i: usize = 0;
        while i < modifiers.len()
            invariant
                i <= modifiers@.len(),
                styles_view(styles) == styles_from(unset_styles(), modifiers@.subrange(0, i as int)),
            decreases modifiers@.len() - i,
        {
            let ghost sub = modifiers@.subrange(0, i + 1);
            assert(sub.drop_last() =~= modifiers@.subrange(0, i as int));
            assert(sub.last() == modifiers@[i as int]);
            let ghost before = styles_view(styles);
            let m = &modifiers[i].node;
            match &m.key.node {
                StyleKey::Fill => {
                    styles.fill = ResolvedStyles::color_to_css(&m.value.node);
                },
                StyleKey::Stroke => {
                    styles.stroke = ResolvedStyles::color_to_css(&m.value.node);
                },
                StyleKey::StrokeWidth => {
                    if let StyleValue::Number { value, .. } = &m.value.node {
                        styles.stroke_width = Some(*value);
                    }
                },
                StyleKey::StrokeDasharray => {
                    match &m.value.node {
                        StyleValue::String(s) => {
                            styles.stroke_dasharray = Some(s.clone());
                        },
                        StyleValue::Keyword(k) => {
                            let pattern = if str_eq(k.as_str(), "dashed") {
                                String::from_str("8,4")
                            } else if str_eq(k.as_str(), "dotted") {
                                String::from_str("2,2")
                            } else {
                                k.clone()
                            };
                            styles.stroke_dasharray = Some(pattern);
                        },
                        _ => {},
                    }
                },
                StyleKey::Opacity => {
                    if let StyleValue::Number { value, .. } = &m.value.node {
                        styles.opacity = Some(*value);
                    }
                },
                StyleKey::FontSize => {
                    if let StyleValue::Number { value, .. } = &m.value.node {
                        styles.font_size = Some(*value);
                    }
                },
                StyleKey::Class => {
                    match &m.value.node {
                        StyleValue::String(c) => {
                            let ghost cl = styles.css_classes@;
                            styles.css_classes.push(c.clone());
                            assert(views(styles.css_classes@) =~= views(cl).push(c@));
                        },
                        StyleValue::Keyword(k) => {
                            let ghost cl = styles.css_classes@;
                            styles.css_classes.push(k.clone());
                            assert(views(styles.css_classes@) =~= views(cl).push(k@));
                        },
                        StyleValue::Identifier(id) => {
                            let ghost cl = styles.css_classes@;
                            styles.css_classes.push(id.0.clone());
                            assert(views(styles.css_classes@) =~= views(cl).push(id.0@));
                        },
                        _ => {},
                    }
                },
                StyleKey::Rotation => {
                    if let StyleValue::Number { value, .. } = &m.value.node {
                        styles.rotation = Some(*value);
                    }
                },
                _ => {},
            }
            assert(styles_view(styles) =~~= apply_style(before, *m));
            i = i + 1;
        }
        assert(modifiers@.subrange(0, i as int) =~= modifiers@);
        styles
    }

    /// Merge another set of styles, with `other` taking precedence; the
    /// classes of both are kept, these first.
    pub fn merge(&self, other: &ResolvedStyles) -> (r: ResolvedStyles)
        ensures
            styles_view(r) == merged_styles(styles_view(*self), styles_view(*other)),
    {
        let mut classes: Vec<String> = Vec::new();
        let mut i: usize = 0;
        while i < self.css_classes.len()
            invariant
                i <= self.css_classes@.len(),
                views(classes@) == views(self.css_classes@).subrange(0, i as int),
            decreases self.css_classes@.len() - i,
        {
            let ghost cl = classes@;
            classes.push(self.css_classes[i].clone());
            assert(views(classes@) =~= views(cl).push(self.css_classes@[i as int]@));
            i = i + 1;
            assert(views(classes@) =~= views(self.css_classes@).subrange(0, i as int));
        }
        let mut j: usize = 0;
        while j < other.css_classes.len()
            invariant
                j <= other.css_classes@.len(),
                views(classes@) == views(self.css_classes@) + views(other.css_classes@).subrange(0, j as int),
            decreases other.css_classes@.len() - j,
        {
            let ghost cl = classes@;
            classes.push(other.css_classes[j].clone());
            assert(views(classes@) =~= views(cl).push(other.css_classes@[j as int]@));
            j = j + 1;
            assert(views(classes@) =~= views(self.css_classes@) + views(other.css_classes@).subrange(0, j as int));
        }
        assert(views(self.css_classes@).subrange(0, i as int) =~= views(self.css_classes@));
        assert(views(other.css_classes@).subrange(0, j as int) =~= views(other.css_classes@));
        let r = ResolvedStyles {
            fill: if other.fill.is_some() { copy_text(&other.fill) } else { copy_text(&self.fill) },
            stroke: if other.stroke.is_some() { copy_text(&other.stroke) } else { copy_text(&self.stroke) },
            stroke_width: if other.stroke_width.is_some() { other.stroke_width } else { self.stroke_width },
            stroke_dasharray: if other.stroke_dasharray.is_some() {
                copy_text(&other.stroke_dasharray)
            } else {
                copy_text(&self.stroke_dasharray)
            },
            opacity: if other.opacity.is_some() { other.opacity } else { self.opacity },
            font_size: if other.font_size.is_some() { other.font_size } else { self.font_size },
            css_classes: classes,
            rotation: if other.rotation.is_some() { other.rotation } else { self.rotation },
        };
        assert(styles_view(r) =~~= merged_styles(styles_view(*self), styles_view(*other)));
        r
    }
}

} // verus!
