//! The document model: the statements of an illustration after parsing.

use vstd::prelude::*;
use crate::num::Num;

verus! {

/// Byte range in source text.
#[derive(Debug, Clone, Copy, PartialEq, Eq, Structural)]
pub struct Span {
    pub start: usize,
    pub end: usize,
}

impl Span {
    /// The span `start..end`.
    pub fn new(start: usize, end: usize) -> (r: Span)
        ensures
            r.start == start,
            r.end == end,
    {
        Span { start, end }
    }
}

/// A node together with the source range it was parsed from.
#[derive(Debug)]
pub struct Spanned<T> {
    pub node: T,
    pub span: Span,
}

/// An element or template name.
#[derive(Debug)]
pub struct Identifier(pub String);

/// Style modifier keys.
#[derive(Debug)]
pub enum StyleKey {
    Fill,
    Stroke,
    StrokeWidth,
    StrokeDasharray,
    Opacity,
    Label,
    LabelFill,
    LabelPosition,
    LabelOffset,
    LabelAt,
    Role,
    Gap,
    Size,
    Width,
    Height,
    X,
    Y,
    Dx,
    Dy,
    Scale,
    Rotation,
    Routing,
    FontSize,
    Class,
    Custom(String),
}

/// Colour values.
#[derive(Debug)]
pub enum ColorValue {
    Hex(String),
    Named(String),
    Symbolic(String),
}

/// Style modifier values.
#[derive(Debug)]
pub enum StyleValue {
    Number { value: Num, unit: Option<String> },
    String(String),
    Keyword(String),
    Identifier(Identifier),
    IdentifierList(Vec<Identifier>),
    Color(ColorValue),
}

/// A `key: value` style modifier.
#[derive(Debug)]
pub struct StyleModifier {
    pub key: Spanned<StyleKey>,
    pub value: Spanned<StyleValue>,
}

/// A free-form path shape; only its name matters to the document logic.
#[derive(Debug)]
pub struct PathDecl {
    pub name: Option<Spanned<Identifier>>,
}

/// Kinds of shapes.
#[derive(Debug)]
pub enum ShapeType {
    Rectangle,
    Circle,
    Ellipse,
    Line,
    Polygon,
    Icon,
    Text,
    Callout,
    SvgEmbed,
    Path(PathDecl),
}

/// A shape statement: `rect a [fill: red]`.
#[derive(Debug)]
pub struct ShapeDecl {
    pub shape_type: Spanned<ShapeType>,
    pub name: Option<Spanned<Identifier>>,
    pub modifiers: Vec<Spanned<StyleModifier>>,
}

/// Kinds of layout containers.
#[derive(Debug, Clone, Copy, PartialEq, Eq, Structural)]
pub enum LayoutType {
    Row,
    Column,
    Grid,
    Stack,
}

/// A layout container: `row name { ... }`.
#[derive(Debug)]
pub struct LayoutDecl {
    pub layout_type: Spanned<LayoutType>,
    pub name: Option<Spanned<Identifier>>,
    pub children: Vec<Spanned<Statement>>,
    pub modifiers: Vec<Spanned<StyleModifier>>,
}

/// A custom anchor declared on a group.
#[derive(Debug)]
pub struct AnchorDecl {
    pub name: Spanned<Identifier>,
}

/// A group: `group name { ... }`.
#[derive(Debug)]
pub struct GroupDecl {
    pub name: Option<Spanned<Identifier>>,
    pub children: Vec<Spanned<Statement>>,
    pub modifiers: Vec<Spanned<StyleModifier>>,
    pub anchors: Vec<AnchorDecl>,
    pub is_template_instance: bool,
}

/// Arrow direction of a connection.
#[derive(Debug, Clone, Copy, PartialEq, Eq, Structural)]
pub enum ConnectionDirection {
    Forward,
    Backward,
    Bidirectional,
    Undirected,
}

/// An element reference with an optional anchor: `a.top`.
#[derive(Debug)]
pub struct AnchorReference {
    pub element: Spanned<Identifier>,
    pub anchor: Option<Spanned<String>>,
}

/// A connection: `a -> b [label: "x"]`.
#[derive(Debug)]
pub struct ConnectionDecl {
    pub from: AnchorReference,
    pub to: AnchorReference,
    pub direction: ConnectionDirection,
    pub modifiers: Vec<Spanned<StyleModifier>>,
}

/// Relative placement of a positional constraint.
#[derive(Debug, Clone, Copy, PartialEq, Eq, Structural)]
pub enum PositionRelation {
    RightOf,
    LeftOf,
    Above,
    Below,
    Inside,
}

/// A positional constraint: `place a right-of b`.
#[derive(Debug)]
pub struct ConstraintDecl {
    pub subject: Spanned<Identifier>,
    pub relation: Option<Spanned<PositionRelation>>,
    pub anchor: Option<Spanned<Identifier>>,
    /// Offsets such as `[x: 10]` applied after placement.
    pub modifiers: Vec<Spanned<StyleModifier>>,
}

/// A dotted element path, such as `group.child`.
#[derive(Debug)]
pub struct ElementPath {
    pub segments: Vec<Spanned<Identifier>>,
}

/// Properties a `constrain` statement can name.
#[derive(Debug)]
pub enum ConstraintProperty {
    X,
    Y,
    Width,
    Height,
    Left,
    Right,
    Top,
    Bottom,
    CenterX,
    CenterY,
    Center,
    AnchorX(String),
    AnchorY(String),
    Anchor(String),
}

/// `element.property`.
#[derive(Debug)]
pub struct PropertyRef {
    pub element: Spanned<ElementPath>,
    pub property: Spanned<ConstraintProperty>,
}

/// The expression of a `constrain` statement.
#[derive(Debug)]
pub enum ConstraintExpr {
    Equal { left: PropertyRef, right: PropertyRef },
    EqualWithOffset { left: PropertyRef, right: PropertyRef, offset: Num },
    Constant { left: PropertyRef, value: Num },
    GreaterOrEqual { left: PropertyRef, value: Num },
    LessOrEqual { left: PropertyRef, value: Num },
    Midpoint { target: PropertyRef, a: Spanned<Identifier>, b: Spanned<Identifier> },
    Contains {
        container: Spanned<Identifier>,
        elements: Vec<Spanned<Identifier>>,
        padding: Option<Num>,
    },
}

/// A `constrain` statement.
#[derive(Debug)]
pub struct ConstrainDecl {
    pub expr: ConstraintExpr,
    pub name: Option<Spanned<Identifier>>,
}

/// A template declaration; its name is what the document defines.
#[derive(Debug)]
pub struct TemplateDecl {
    pub name: Spanned<Identifier>,
}

/// An instance of a template: `person alice`.
#[derive(Debug)]
pub struct TemplateInstance {
    pub template_name: Spanned<Identifier>,
    pub instance_name: Spanned<Identifier>,
}

/// An export of names from a template body.
#[derive(Debug)]
pub struct ExportDecl {
    pub names: Vec<Spanned<Identifier>>,
}

/// One operation of a keyframe.
#[derive(Debug)]
pub enum KeyframeOp {
    Show(Vec<Spanned<Identifier>>),
    Hide(Vec<Spanned<Identifier>>),
    Transform { target: Spanned<Identifier>, modifiers: Vec<Spanned<StyleModifier>> },
}

/// A keyframe declaration.
#[derive(Debug)]
pub struct KeyframeDecl {
    pub name: Spanned<String>,
    pub operations: Vec<Spanned<KeyframeOp>>,
    pub no_resolve: bool,
}

/// A statement of the document.
#[derive(Debug)]
pub enum Statement {
    Shape(ShapeDecl),
    Layout(LayoutDecl),
    Group(GroupDecl),
    Connection(Vec<ConnectionDecl>),
    Constraint(ConstraintDecl),
    Constrain(ConstrainDecl),
    Label(Box<Statement>),
    TemplateDecl(TemplateDecl),
    TemplateInstance(TemplateInstance),
    Export(ExportDecl),
    AnchorDecl(AnchorDecl),
    Keyframe(KeyframeDecl),
}

/// A parsed document.
#[derive(Debug)]
pub struct Document {
    pub statements: Vec<Spanned<Statement>>,
}

// ---------------------------------------------------------------------------
// Views used by the contracts
// ---------------------------------------------------------------------------

impl Identifier {
    /// The identifier's text.
    pub open spec fn text(&self) -> Seq<char> {
        self.0@
    }
}

/// Two style keys are the same key (custom keys by their text).
pub open spec fn key_eq(a: StyleKey, b: StyleKey) -> bool {
    match (a, b) {
        (StyleKey::Custom(x), StyleKey::Custom(y)) => x@ == y@,
        (StyleKey::Custom(_), _) => false,
        (_, StyleKey::Custom(_)) => false,
        _ => a == b,
    }
}

impl ElementPath {
    /// The last segment's text (the element the path designates).
    pub open spec fn leaf_text(&self) -> Seq<char> {
        if self.segments@.len() == 0 {
            Seq::empty()
        } else {
            self.segments@.last().node.0@
        }
    }

    /// The path as written, segments joined by `.`.
    pub open spec fn path_text(&self) -> Seq<char> {
        join_dotted(self.segments@)
    }
}

/// Segments joined by `.`.
pub open spec fn join_dotted(segs: Seq<Spanned<Identifier>>) -> Seq<char>
    decreases segs.len(),
{
    if segs.len() == 0 {
        Seq::empty()
    } else if segs.len() == 1 {
        segs[0].node.0@
    } else {
        join_dotted(segs.drop_last()) + seq!['.'] + segs.last().node.0@
    }
}

// ---------------------------------------------------------------------------
// Constructors and accessors
// ---------------------------------------------------------------------------

impl Identifier {
    /// An identifier with the text of `s`.
    pub fn new(s: &str) -> (r: Identifier)
        ensures
            r.0@ == s@,
    {
        Identifier(String::from_str(s))
    }

    /// A copy of this identifier.
    pub fn copy(&self) -> (r: Identifier)
        ensures
            r == *self,
    {
        Identifier(self.0.clone())
    }
}

impl ElementPath {
    /// A one-segment path.
    pub fn simple(id: Identifier, span: Span) -> (r: ElementPath)
        ensures
            r.segments@ == seq![Spanned { node: id, span }],
    {
        let mut segments = Vec::new();
        segments.push(Spanned { node: id, span });
        ElementPath { segments }
    }

    /// The element the path designates (its last segment).
    pub fn leaf(&self) -> (r: &Identifier)
        requires
            self.segments@.len() > 0,
        ensures
            r.0@ == self.leaf_text(),
    {
        &self.segments[self.segments.len() - 1].node
    }

    /// The text of the element the path designates; empty for an empty path.
    pub fn leaf_string(&self) -> (r: String)
        ensures
            r@ == self.leaf_text(),
    {
        if self.segments.len() == 0 {
            String::new()
        } else {
            self.segments[self.segments.len() - 1].node.0.clone()
        }
    }

    /// The path as written: segments joined by `.`.
    pub fn to_text(&self) -> (r: String)
        ensures
            r@ == self.path_text(),
    {
        let mut r = String::new();
        let mut i: usize = 0;
        while i < self.segments.len()
            invariant
                i <= self.segments@.len(),
                r@ == join_dotted(self.segments@.subrange(0, i as int)),
            decreases self.segments@.len() - i,
        {
            let ghost sub = self.segments@.subrange(0, i + 1);
            assert(sub.drop_last() =~= self.segments@.subrange(0, i as int));
            assert(sub.last() == self.segments@[i as int]);
            if i > 0 {
                crate::strings::push_char(&mut r, '.');
            } else {
                assert(r@ =~= Seq::<char>::empty());
            }
            r.append(self.segments[i].node.0.as_str());
            i = i + 1;
            proof {
                if i == 1 {
                    assert(r@ =~= sub[0].node.0@);
                }
            }
        }
        assert(self.segments@.subrange(0, i as int) =~= self.segments@);
        r
    }
}

/// Whether two style keys are the same key.
pub fn same_key(a: &StyleKey, b: &StyleKey) -> (r: bool)
    ensures
        r == key_eq(*a, *b),
{
    match (a, b) {
        (StyleKey::Custom(x), StyleKey::Custom(y)) => crate::strings::str_eq(x.as_str(), y.as_str()),
        (StyleKey::Custom(_), _) => false,
        (_, StyleKey::Custom(_)) => false,
        (StyleKey::Fill, StyleKey::Fill) => true,
        (StyleKey::Stroke, StyleKey::Stroke) => true,
        (StyleKey::StrokeWidth, StyleKey::StrokeWidth) => true,
        (StyleKey::StrokeDasharray, StyleKey::StrokeDasharray) => true,
        (StyleKey::Opacity, StyleKey::Opacity) => true,
        (StyleKey::Label, StyleKey::Label) => true,
        (StyleKey::LabelFill, StyleKey::LabelFill) => true,
        (StyleKey::LabelPosition, StyleKey::LabelPosition) => true,
        (StyleKey::LabelOffset, StyleKey::LabelOffset) => true,
        (StyleKey::LabelAt, StyleKey::LabelAt) => true,
        (StyleKey::Role, StyleKey::Role) => true,
        (StyleKey::Gap, StyleKey::Gap) => true,
        (StyleKey::Size, StyleKey::Size) => true,
        (StyleKey::Width, StyleKey::Width) => true,
        (StyleKey::Height, StyleKey::Height) => true,
        (StyleKey::X, StyleKey::X) => true,
        (StyleKey::Y, StyleKey::Y) => true,
        (StyleKey::Dx, StyleKey::Dx) => true,
        (StyleKey::Dy, StyleKey::Dy) => true,
        (StyleKey::Scale, StyleKey::Scale) => true,
        (StyleKey::Rotation, StyleKey::Rotation) => true,
        (StyleKey::Routing, StyleKey::Routing) => true,
        (StyleKey::FontSize, StyleKey::FontSize) => true,
        (StyleKey::Class, StyleKey::Class) => true,
        _ => false,
    }
}

} // verus!

verus! {

impl Clone for Identifier {
    fn clone(&self) -> (r: Self)
        ensures
            r == *self,
    {
        Identifier(self.0.clone())
    }
}

impl Clone for Spanned<Identifier> {
    fn clone(&self) -> (r: Self)
        ensures
            r == *self,
    {
        Spanned { node: self.node.clone(), span: self.span }
    }
}

/// A copy of a vector whose element type's `clone` gives back an equal value.
pub fn clone_vec<T: Clone>(v: &Vec<T>) -> (r: Vec<T>)
    requires
        forall|a: T, b: T| vstd::pervasive::cloned::<T>(a, b) ==> a == b,
    ensures
        r@ == v@,
{
    let mut r: Vec<T> = Vec::new();
    let mut i: usize = 0;
    while i < v.len()
        invariant
            i <= v@.len(),
            r@ == v@.subrange(0, i as int),
            forall|a: T, b: T| vstd::pervasive::cloned::<T>(a, b) ==> a == b,
        decreases v@.len() - i,
    {
        let x = v[i].clone();
        assert(vstd::pervasive::cloned::<T>(v@[i as int], x));
        r.push(x);
        i = i + 1;
        assert(r@ =~= v@.subrange(0, i as int));
    }
    assert(r@ =~= v@);
    r
}

fn clone_opt_id(o: &Option<Spanned<Identifier>>) -> (r: Option<Spanned<Identifier>>)
    ensures
        r == *o,
{
    match o {
        Some(x) => Some(x.clone()),
        None => None,
    }
}

impl Clone for StyleKey {
    fn clone(&self) -> (r: Self)
        ensures
            r == *self,
    {
        match self {
            StyleKey::Fill => StyleKey::Fill,
            StyleKey::Stroke => StyleKey::Stroke,
            StyleKey::StrokeWidth => StyleKey::StrokeWidth,
            StyleKey::StrokeDasharray => StyleKey::StrokeDasharray,
            StyleKey::Opacity => StyleKey::Opacity,
            StyleKey::Label => StyleKey::Label,
            StyleKey::LabelFill => StyleKey::LabelFill,
            StyleKey::LabelPosition => StyleKey::LabelPosition,
            StyleKey::LabelOffset => StyleKey::LabelOffset,
            StyleKey::LabelAt => StyleKey::LabelAt,
            StyleKey::Role => StyleKey::Role,
            StyleKey::Gap => StyleKey::Gap,
            StyleKey::Size => StyleKey::Size,
            StyleKey::Width => StyleKey::Width,
            StyleKey::Height => StyleKey::Height,
            StyleKey::X => StyleKey::X,
            StyleKey::Y => StyleKey::Y,
            StyleKey::Dx => StyleKey::Dx,
            StyleKey::Dy => StyleKey::Dy,
            StyleKey::Scale => StyleKey::Scale,
            StyleKey::Rotation => StyleKey::Rotation,
            StyleKey::Routing => StyleKey::Routing,
            StyleKey::FontSize => StyleKey::FontSize,
            StyleKey::Class => StyleKey::Class,
            StyleKey::Custom(c) => StyleKey::Custom(c.clone()),
        }
    }
}

impl Clone for ColorValue {
    fn clone(&self) -> (r: Self)
        ensures
            r == *self,
    {
        match self {
            ColorValue::Hex(c) => ColorValue::Hex(c.clone()),
            ColorValue::Named(c) => ColorValue::Named(c.clone()),
            ColorValue::Symbolic(c) => ColorValue::Symbolic(c.clone()),
        }
    }
}



impl Clone for PathDecl {
    fn clone(&self) -> (r: Self)
        ensures
            r == *self,
    {
        PathDecl { name: clone_opt_id(&self.name) }
    }
}

impl Clone for ShapeType {
    fn clone(&self) -> (r: Self)
        ensures
            r == *self,
    {
        match self {
            ShapeType::Rectangle => ShapeType::Rectangle,
            ShapeType::Circle => ShapeType::Circle,
            ShapeType::Ellipse => ShapeType::Ellipse,
            ShapeType::Line => ShapeType::Line,
            ShapeType::Polygon => ShapeType::Polygon,
            ShapeType::Icon => ShapeType::Icon,
            ShapeType::Text => ShapeType::Text,
            ShapeType::Callout => ShapeType::Callout,
            ShapeType::SvgEmbed => ShapeType::SvgEmbed,
            ShapeType::Path(p) => ShapeType::Path(p.clone()),
        }
    }
}


impl Clone for AnchorDecl {
    fn clone(&self) -> (r: Self)
        ensures
            r == *self,
    {
        AnchorDecl { name: self.name.clone() }
    }
}

impl Clone for AnchorReference {
    fn clone(&self) -> (r: Self)
        ensures
            r == *self,
    {
        AnchorReference {
            element: self.element.clone(),
            anchor: match &self.anchor {
                Some(a) => Some(a.clone()),
                None => None,
            },
        }
    }
}


impl Clone for ConstraintDecl {
    fn clone(&self) -> (r: Self)
        ensures
            r.subject == self.subject,
            r.relation == self.relation,
            r.anchor == self.anchor,
            same_modifiers(r.modifiers@, self.modifiers@),
    {
        ConstraintDecl {
            subject: self.subject.clone(),
            relation: match &self.relation {
                Some(r) => Some(r.clone()),
                None => None,
            },
            anchor: clone_opt_id(&self.anchor),
            modifiers: clone_modifiers(&self.modifiers),
        }
    }
}


impl Clone for ConstraintProperty {
    fn clone(&self) -> (r: Self)
        ensures
            r == *self,
    {
        match self {
            ConstraintProperty::X => ConstraintProperty::X,
            ConstraintProperty::Y => ConstraintProperty::Y,
            ConstraintProperty::Width => ConstraintProperty::Width,
            ConstraintProperty::Height => ConstraintProperty::Height,
            ConstraintProperty::Left => ConstraintProperty::Left,
            ConstraintProperty::Right => ConstraintProperty::Right,
            ConstraintProperty::Top => ConstraintProperty::Top,
            ConstraintProperty::Bottom => ConstraintProperty::Bottom,
            ConstraintProperty::CenterX => ConstraintProperty::CenterX,
            ConstraintProperty::CenterY => ConstraintProperty::CenterY,
            ConstraintProperty::Center => ConstraintProperty::Center,
            ConstraintProperty::AnchorX(n) => ConstraintProperty::AnchorX(n.clone()),
            ConstraintProperty::AnchorY(n) => ConstraintProperty::AnchorY(n.clone()),
            ConstraintProperty::Anchor(n) => ConstraintProperty::Anchor(n.clone()),
        }
    }
}




impl Clone for TemplateDecl {
    fn clone(&self) -> (r: Self)
        ensures
            r == *self,
    {
        TemplateDecl { name: self.name.clone() }
    }
}

impl Clone for TemplateInstance {
    fn clone(&self) -> (r: Self)
        ensures
            r == *self,
    {
        TemplateInstance {
            template_name: self.template_name.clone(),
            instance_name: self.instance_name.clone(),
        }
    }
}






impl Clone for Spanned<StyleKey> {
    fn clone(&self) -> (r: Self)
        ensures
            r == *self,
    {
        Spanned { node: self.node.clone(), span: self.span }
    }
}



impl Clone for Spanned<ShapeType> {
    fn clone(&self) -> (r: Self)
        ensures
            r == *self,
    {
        Spanned { node: self.node.clone(), span: self.span }
    }
}

impl Clone for Spanned<LayoutType> {
    fn clone(&self) -> (r: Self)
        ensures
            r == *self,
    {
        Spanned { node: self.node, span: self.span }
    }
}

impl Clone for Spanned<String> {
    fn clone(&self) -> (r: Self)
        ensures
            r == *self,
    {
        Spanned { node: self.node.clone(), span: self.span }
    }
}

impl Clone for Spanned<PositionRelation> {
    fn clone(&self) -> (r: Self)
        ensures
            r == *self,
    {
        Spanned { node: self.node, span: self.span }
    }
}


impl Clone for Spanned<ConstraintProperty> {
    fn clone(&self) -> (r: Self)
        ensures
            r == *self,
    {
        Spanned { node: self.node.clone(), span: self.span }
    }
}



impl StyleValue {
    /// The same value (lists of identifiers compared element by element).
    pub open spec fn same(self, other: StyleValue) -> bool {
        match (self, other) {
            (StyleValue::IdentifierList(x), StyleValue::IdentifierList(y)) => x@ == y@,
            (StyleValue::IdentifierList(_), _) => false,
            (_, StyleValue::IdentifierList(_)) => false,
            _ => self == other,
        }
    }
}

impl StyleModifier {
    /// The same modifier: same key and spans, same value.
    pub open spec fn same(self, other: StyleModifier) -> bool {
        &&& self.key == other.key
        &&& self.value.span == other.value.span
        &&& self.value.node.same(other.value.node)
    }
}

/// Two modifier lists hold the same modifiers in the same order.
pub open spec fn same_modifiers(a: Seq<Spanned<StyleModifier>>, b: Seq<Spanned<StyleModifier>>) -> bool {
    &&& a.len() == b.len()
    &&& forall|i: int| #![trigger a[i]] 0 <= i < a.len() ==> a[i].span == b[i].span && a[i].node.same(b[i].node)
}

impl Clone for StyleValue {
    fn clone(&self) -> (r: Self)
        ensures
            r.same(*self),
    {
        match self {
            StyleValue::Number { value, unit } => StyleValue::Number {
                value: *value,
                unit: match unit {
                    Some(u) => Some(u.clone()),
                    None => None,
                },
            },
            StyleValue::String(x) => StyleValue::String(x.clone()),
            StyleValue::Keyword(x) => StyleValue::Keyword(x.clone()),
            StyleValue::Identifier(x) => StyleValue::Identifier(x.clone()),
            StyleValue::IdentifierList(xs) => StyleValue::IdentifierList(clone_vec(xs)),
            StyleValue::Color(c) => StyleValue::Color(c.clone()),
        }
    }
}

impl Clone for StyleModifier {
    fn clone(&self) -> (r: Self)
        ensures
            r.same(*self),
    {
        StyleModifier {
            key: self.key.clone(),
            value: Spanned { node: self.value.node.clone(), span: self.value.span },
        }
    }
}

impl Clone for Spanned<StyleModifier> {
    fn clone(&self) -> (r: Self)
        ensures
            r.span == self.span,
            r.node.same(self.node),
    {
        Spanned { node: self.node.clone(), span: self.span }
    }
}

/// A copy of a list of modifiers.
pub fn clone_modifiers(v: &Vec<Spanned<StyleModifier>>) -> (r: Vec<Spanned<StyleModifier>>)
    ensures
        same_modifiers(r@, v@),
{
    let mut r: Vec<Spanned<StyleModifier>> = Vec::new();
    let mut i: usize = 0;
    while i < v.len()
        invariant
            i <= v@.len(),
            same_modifiers(r@, v@.subrange(0, i as int)),
        decreases v@.len() - i,
    {
        let x = v[i].clone();
        r.push(x);
        i = i + 1;
        assert(same_modifiers(r@, v@.subrange(0, i as int)));
    }
    assert(v@.subrange(0, v@.len() as int) =~= v@);
    r
}

} // verus!
