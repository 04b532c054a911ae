//! Layout constraints: the variables, constraints and errors that the
//! constraint solver works with.

use vstd::prelude::*;
use crate::ast::Span;
use crate::num::{num_text, Num};

verus! {

/// Properties that can be constrained.
#[derive(Debug, Clone, Copy, PartialEq, Eq, Hash, Structural)]
pub enum LayoutProperty {
    X,
    Y,
    Width,
    Height,
    /// Center X = X + Width/2 (derived property)
    CenterX,
    /// Center Y = Y + Height/2 (derived property)
    CenterY,
    /// Right = X + Width (derived property)
    Right,
    /// Bottom = Y + Height (derived property)
    Bottom,
}

impl LayoutProperty {
    /// The base (non-derived) properties, in order.
    pub fn base_properties() -> (r: [LayoutProperty; 4])
        ensures
            r@ == seq![LayoutProperty::X, LayoutProperty::Y, LayoutProperty::Width, LayoutProperty::Height],
    {
        let r = [LayoutProperty::X, LayoutProperty::Y, LayoutProperty::Width, LayoutProperty::Height];
        assert(r@ =~= seq![LayoutProperty::X, LayoutProperty::Y, LayoutProperty::Width, LayoutProperty::Height]);
        r
    }
}

/// Derived properties computed from base properties.
#[derive(Debug, Clone, Copy, PartialEq, Eq, Structural)]
pub enum DerivedProperty {
    Left,
    Right,
    Top,
    Bottom,
    CenterX,
    CenterY,
}

/// A variable in the constraint system.
#[derive(Debug)]
pub struct LayoutVariable {
    pub element_id: String,
    pub property: LayoutProperty,
}

impl Clone for LayoutVariable {
    fn clone(&self) -> (r: Self)
        ensures
            r == *self,
    {
        LayoutVariable { element_id: self.element_id.clone(), property: self.property }
    }
}

impl LayoutVariable {
    /// The variable `element_id.property`.
    pub fn new(element_id: &str, property: LayoutProperty) -> (r: LayoutVariable)
        ensures
            r.element_id@ == element_id@,
            r.property == property,
    {
        LayoutVariable { element_id: String::from_str(element_id), property }
    }

    /// The element's X position.
    pub fn x(element_id: &str) -> (r: LayoutVariable)
        ensures
            r.element_id@ == element_id@,
            r.property == LayoutProperty::X,
    {
        Self::new(element_id, LayoutProperty::X)
    }

    /// The element's Y position.
    pub fn y(element_id: &str) -> (r: LayoutVariable)
        ensures
            r.element_id@ == element_id@,
            r.property == LayoutProperty::Y,
    {
        Self::new(element_id, LayoutProperty::Y)
    }

    /// The element's width.
    pub fn width(element_id: &str) -> (r: LayoutVariable)
        ensures
            r.element_id@ == element_id@,
            r.property == LayoutProperty::Width,
    {
        Self::new(element_id, LayoutProperty::Width)
    }

    /// The element's height.
    pub fn height(element_id: &str) -> (r: LayoutVariable)
        ensures
            r.element_id@ == element_id@,
            r.property == LayoutProperty::Height,
    {
        Self::new(element_id, LayoutProperty::Height)
    }
}

/// Origin of a constraint (for error messages).
#[derive(Debug, Clone, Copy, PartialEq, Eq, Structural)]
pub enum ConstraintOrigin {
    /// User wrote explicit constraint.
    UserDefined,
    /// Generated from layout container (row, col, etc.).
    LayoutContainer,
    /// Generated from intrinsic properties (text size, etc.).
    Intrinsic,
}

/// Tracks where a constraint came from.
#[derive(Debug)]
pub struct ConstraintSource {
    /// Byte range in source file.
    pub span: Span,
    /// Human-readable description.
    pub description: String,
    /// Origin type.
    pub origin: ConstraintOrigin,
    /// The template instance the constraint belongs to, when known.
    pub template_instance: Option<String>,
}

impl Clone for ConstraintSource {
    fn clone(&self) -> (r: Self)
        ensures
            r == *self,
    {
        ConstraintSource {
            span: self.span,
            description: self.description.clone(),
            origin: self.origin,
            template_instance: match &self.template_instance {
                Some(t) => Some(t.clone()),
                None => None,
            },
        }
    }
}

impl ConstraintSource {
    /// A user-written constraint.
    pub fn user(span: Span, description: &str) -> (r: ConstraintSource)
        ensures
            r.span == span,
            r.description@ == description@,
            r.origin == ConstraintOrigin::UserDefined,
            r.template_instance.is_none(),
    {
        ConstraintSource {
            span,
            description: String::from_str(description),
            origin: ConstraintOrigin::UserDefined,
            template_instance: None,
        }
    }

    /// A constraint generated by a layout container.
    pub fn layout(span: Span, description: &str) -> (r: ConstraintSource)
        ensures
            r.span == span,
            r.description@ == description@,
            r.origin == ConstraintOrigin::LayoutContainer,
            r.template_instance.is_none(),
    {
        ConstraintSource {
            span,
            description: String::from_str(description),
            origin: ConstraintOrigin::LayoutContainer,
            template_instance: None,
        }
    }

    /// The same source, marked as internal to the template instance `instance`.
    pub fn with_template_instance(self, instance: &str) -> (r: ConstraintSource)
        ensures
            r.span == self.span,
            r.description == self.description,
            r.origin == self.origin,
            r.template_instance matches Some(t) && t@ == instance@,
    {
        ConstraintSource {
            span: self.span,
            description: self.description,
            origin: self.origin,
            template_instance: Some(String::from_str(instance)),
        }
    }

    /// An intrinsic constraint (no source position).
    pub fn intrinsic(description: &str) -> (r: ConstraintSource)
        ensures
            r.span == (Span { start: 0, end: 0 }),
            r.description@ == description@,
            r.origin == ConstraintOrigin::Intrinsic,
            r.template_instance.is_none(),
    {
        ConstraintSource {
            span: Span { start: 0, end: 0 },
            description: String::from_str(description),
            origin: ConstraintOrigin::Intrinsic,
            template_instance: None,
        }
    }
}

/// A constraint in the layout system.
#[derive(Debug)]
pub enum LayoutConstraint {
    /// variable = value (required).
    Fixed { variable: LayoutVariable, value: Num, source: ConstraintSource },
    /// left = right + offset.
    Equal { left: LayoutVariable, right: LayoutVariable, offset: Num, source: ConstraintSource },
    /// variable >= value.
    GreaterOrEqual { variable: LayoutVariable, value: Num, source: ConstraintSource },
    /// variable <= value.
    LessOrEqual { variable: LayoutVariable, value: Num, source: ConstraintSource },
    /// target = (a + b) / 2 + offset.
    Midpoint {
        target: LayoutVariable,
        a: LayoutVariable,
        b: LayoutVariable,
        offset: Num,
        source: ConstraintSource,
    },
    /// variable ~ value (a preference the solver may override).
    Suggested { variable: LayoutVariable, value: Num, source: ConstraintSource },
}

impl Clone for LayoutConstraint {
    fn clone(&self) -> (r: Self)
        ensures
            r == *self,
    {
        match self {
            LayoutConstraint::Fixed { variable, value, source } => LayoutConstraint::Fixed {
                variable: variable.clone(),
                value: *value,
                source: source.clone(),
            },
            LayoutConstraint::Equal { left, right, offset, source } => LayoutConstraint::Equal {
                left: left.clone(),
                right: right.clone(),
                offset: *offset,
                source: source.clone(),
            },
            LayoutConstraint::GreaterOrEqual { variable, value, source } =>
                LayoutConstraint::GreaterOrEqual {
                    variable: variable.clone(),
                    value: *value,
                    source: source.clone(),
                },
            LayoutConstraint::LessOrEqual { variable, value, source } =>
                LayoutConstraint::LessOrEqual {
                    variable: variable.clone(),
                    value: *value,
                    source: source.clone(),
                },
            LayoutConstraint::Midpoint { target, a, b, offset, source } => LayoutConstraint::Midpoint {
                target: target.clone(),
                a: a.clone(),
                b: b.clone(),
                offset: *offset,
                source: source.clone(),
            },
            LayoutConstraint::Suggested { variable, value, source } => LayoutConstraint::Suggested {
                variable: variable.clone(),
                value: *value,
                source: source.clone(),
            },
        }
    }
}

impl LayoutConstraint {
    /// The source of the constraint.
    pub open spec fn spec_source(self) -> ConstraintSource {
        match self {
            LayoutConstraint::Fixed { source, .. } => source,
            LayoutConstraint::Equal { source, .. } => source,
            LayoutConstraint::GreaterOrEqual { source, .. } => source,
            LayoutConstraint::LessOrEqual { source, .. } => source,
            LayoutConstraint::Midpoint { source, .. } => source,
            LayoutConstraint::Suggested { source, .. } => source,
        }
    }

    /// The variables of the constraint, in the order they are written.
    pub open spec fn variables(self) -> Seq<LayoutVariable> {
        match self {
            LayoutConstraint::Fixed { variable, .. } => seq![variable],
            LayoutConstraint::Equal { left, right, .. } => seq![left, right],
            LayoutConstraint::GreaterOrEqual { variable, .. } => seq![variable],
            LayoutConstraint::LessOrEqual { variable, .. } => seq![variable],
            LayoutConstraint::Midpoint { target, a, b, .. } => seq![target, a, b],
            LayoutConstraint::Suggested { variable, .. } => seq![variable],
        }
    }

    /// The element ids of the constraint's variables, in order.
    pub open spec fn element_id_texts(self) -> Seq<Seq<char>> {
        self.variables().map_values(|v: LayoutVariable| v.element_id@)
    }

    /// The source of this constraint.
    pub fn source(&self) -> (r: &ConstraintSource)
        ensures
            *r == self.spec_source(),
    {
        match self {
            LayoutConstraint::Fixed { source, .. } => source,
            LayoutConstraint::Equal { source, .. } => source,
            LayoutConstraint::GreaterOrEqual { source, .. } => source,
            LayoutConstraint::LessOrEqual { source, .. } => source,
            LayoutConstraint::Midpoint { source, .. } => source,
            LayoutConstraint::Suggested { source, .. } => source,
        }
    }

    /// The element ids referenced by this constraint, in order.
    pub fn element_ids(&self) -> (r: Vec<&str>)
        ensures
            r@.len() == self.element_id_texts().len(),
            forall|i: int| 0 <= i < r@.len() ==> #[trigger] r@[i]@ == self.element_id_texts()[i],
    {
        let mut r: Vec<&str> = Vec::new();
        match self {
            LayoutConstraint::Fixed { variable, .. }
            | LayoutConstraint::GreaterOrEqual { variable, .. }
            | LayoutConstraint::LessOrEqual { variable, .. }
            | LayoutConstraint::Suggested { variable, .. } => {
                r.push(variable.element_id.as_str());
            },
            LayoutConstraint::Equal { left, right, .. } => {
                r.push(left.element_id.as_str());
                r.push(right.element_id.as_str());
            },
            LayoutConstraint::Midpoint { target, a, b, .. } => {
                r.push(target.element_id.as_str());
                r.push(a.element_id.as_str());
                r.push(b.element_id.as_str());
            },
        }
        r
    }
}

/// The kind of a constraint.
#[derive(Debug, Clone, Copy, PartialEq, Eq, Structural)]
pub enum ConstraintKind {
    Fixed,
    Equal,
    GreaterOrEqual,
    LessOrEqual,
    Midpoint,
    Suggested,
}

/// What a variable denotes: the element's text and the property.
pub type VariableView = (Seq<char>, LayoutProperty);

/// What a source records: span, description text, origin, template instance text.
pub type SourceView = (Span, Seq<char>, ConstraintOrigin, Option<Seq<char>>);

/// What a constraint says: its kind, its variables in order, its number
/// (value or offset) and its source.
pub type ConstraintView = (ConstraintKind, Seq<VariableView>, Num, SourceView);

impl View for LayoutVariable {
    type V = VariableView;

    open spec fn view(&self) -> VariableView {
        (self.element_id@, self.property)
    }
}

impl View for ConstraintSource {
    type V = SourceView;

    open spec fn view(&self) -> SourceView {
        (
            self.span,
            self.description@,
            self.origin,
            match self.template_instance {
                Some(t) => Some(t@),
                None => None,
            },
        )
    }
}

impl View for LayoutConstraint {
    type V = ConstraintView;

    open spec fn view(&self) -> ConstraintView {
        match *self {
            LayoutConstraint::Fixed { variable, value, source } => (
                ConstraintKind::Fixed,
                seq![variable@],
                value,
                source@,
            ),
            LayoutConstraint::Equal { left, right, offset, source } => (
                ConstraintKind::Equal,
                seq![left@, right@],
                offset,
                source@,
            ),
            LayoutConstraint::GreaterOrEqual { variable, value, source } => (
                ConstraintKind::GreaterOrEqual,
                seq![variable@],
                value,
                source@,
            ),
            LayoutConstraint::LessOrEqual { variable, value, source } => (
                ConstraintKind::LessOrEqual,
                seq![variable@],
                value,
                source@,
            ),
            LayoutConstraint::Midpoint { target, a, b, offset, source } => (
                ConstraintKind::Midpoint,
                seq![target@, a@, b@],
                offset,
                source@,
            ),
            LayoutConstraint::Suggested { variable, value, source } => (
                ConstraintKind::Suggested,
                seq![variable@],
                value,
                source@,
            ),
        }
    }
}

/// The views of a list of constraints.
pub open spec fn constraint_views(cs: Seq<LayoutConstraint>) -> Seq<ConstraintView> {
    cs.map_values(|c: LayoutConstraint| c@)
}

/// How a property is spelled in constraint descriptions.
pub open spec fn property_text(p: LayoutProperty) -> Seq<char> {
    match p {
        LayoutProperty::X => "X"@,
        LayoutProperty::Y => "Y"@,
        LayoutProperty::Width => "Width"@,
        LayoutProperty::Height => "Height"@,
        LayoutProperty::CenterX => "CenterX"@,
        LayoutProperty::CenterY => "CenterY"@,
        LayoutProperty::Right => "Right"@,
        LayoutProperty::Bottom => "Bottom"@,
    }
}

/// `element.Property`.
pub open spec fn variable_text(v: LayoutVariable) -> Seq<char> {
    v.element_id@ + "."@ + property_text(v.property)
}

/// How a constraint is described in solver errors.
pub open spec fn constraint_description(c: LayoutConstraint) -> Seq<char> {
    match c {
        LayoutConstraint::Fixed { variable, value, .. } => variable_text(variable) + " = "@ + num_text(value),
        LayoutConstraint::Equal { left, right, offset, .. } => if offset.milli == 0 {
            variable_text(left) + " = "@ + variable_text(right)
        } else {
            variable_text(left) + " = "@ + variable_text(right) + " + "@ + num_text(offset)
        },
        LayoutConstraint::GreaterOrEqual { variable, value, .. } => variable_text(variable) + " >= "@ + num_text(value),
        LayoutConstraint::LessOrEqual { variable, value, .. } => variable_text(variable) + " <= "@ + num_text(value),
        LayoutConstraint::Midpoint { target, a, b, offset, .. } => {
            let base = variable_text(target) + " = midpoint("@ + variable_text(a) + ", "@ + variable_text(b) + ")"@;
            if offset.milli != 0 {
                base + " + "@ + num_text(offset)
            } else {
                base
            }
        },
        LayoutConstraint::Suggested { variable, value, .. } => variable_text(variable) + " ~ "@ + num_text(value),
    }
}

fn push_variable(s: &mut String, v: &LayoutVariable)
    ensures
        final(s)@ == old(s)@ + variable_text(*v),
{
    s.append(v.element_id.as_str());
    s.append(".");
    match v.property {
        LayoutProperty::X => s.append("X"),
        LayoutProperty::Y => s.append("Y"),
        LayoutProperty::Width => s.append("Width"),
        LayoutProperty::Height => s.append("Height"),
        LayoutProperty::CenterX => s.append("CenterX"),
        LayoutProperty::CenterY => s.append("CenterY"),
        LayoutProperty::Right => s.append("Right"),
        LayoutProperty::Bottom => s.append("Bottom"),
    }
    assert(final(s)@ =~= old(s)@ + variable_text(*v));
}

/// Describe a constraint for solver errors, such as `a.X = b.X + 10`.
pub fn describe_constraint(c: &LayoutConstraint) -> (r: String)
    ensures
        r@ == constraint_description(*c),
{
    let mut s = String::new();
    match c {
        LayoutConstraint::Fixed { variable, value, .. } => {
            push_variable(&mut s, variable);
            s.append(" = ");
            value.push_text(&mut s);
        },
        LayoutConstraint::Equal { left, right, offset, .. } => {
            push_variable(&mut s, left);
            s.append(" = ");
            push_variable(&mut s, right);
            if offset.milli != 0 {
                s.append(" + ");
                offset.push_text(&mut s);
            }
        },
        LayoutConstraint::GreaterOrEqual { variable, value, .. } => {
            push_variable(&mut s, variable);
            s.append(" >= ");
            value.push_text(&mut s);
        },
        LayoutConstraint::LessOrEqual { variable, value, .. } => {
            push_variable(&mut s, variable);
            s.append(" <= ");
            value.push_text(&mut s);
        },
        LayoutConstraint::Midpoint { target, a, b, offset, .. } => {
            push_variable(&mut s, target);
            s.append(" = midpoint(");
            push_variable(&mut s, a);
            s.append(", ");
            push_variable(&mut s, b);
            s.append(")");
            if offset.milli != 0 {
                s.append(" + ");
                offset.push_text(&mut s);
            }
        },
        LayoutConstraint::Suggested { variable, value, .. } => {
            push_variable(&mut s, variable);
            s.append(" ~ ");
            value.push_text(&mut s);
        },
    }
    assert(s@ =~= constraint_description(*c));
    s
}

/// Why the solver refused a constraint.
#[derive(Debug)]
pub enum AddConstraintFailure {
    /// The constraint cannot hold together with those already added.
    Unsatisfiable,
    /// The same constraint was added before.
    Duplicate,
    /// The solver failed internally, with its message.
    Internal(String),
}

/// The sources of an unsatisfiable constraint: the refused one first, then
/// every one already added.
pub open spec fn conflict_sources(source: ConstraintSource, added: Seq<ConstraintSource>) -> Seq<ConstraintSource> {
    seq![source] + added
}

/// The error for a refused constraint, given the description of the
/// constraint, its source and the sources of the constraints already added.
pub open spec fn refusal_error(
    f: AddConstraintFailure,
    source: ConstraintSource,
    added: Seq<ConstraintSource>,
    desc: Seq<char>,
    e: SolverError,
) -> bool {
    match f {
        AddConstraintFailure::Unsatisfiable => e matches SolverError::Unsatisfiable { conflicting, reason }
            && conflicting@ == conflict_sources(source, added)
            && reason@ == "Cannot satisfy "@ + desc + ": conflicts with existing constraints"@,
        AddConstraintFailure::Duplicate => e matches SolverError::Internal(m) && m@ == "Duplicate constraint: "@ + desc,
        AddConstraintFailure::Internal(msg) => e matches SolverError::Internal(m)
            && m@ == "Internal solver error for "@ + desc + ": "@ + msg@,
    }
}

/// The solver error for a constraint the solver refused.
pub fn refusal_to_error(
    failure: &AddConstraintFailure,
    source: &ConstraintSource,
    added: &Vec<ConstraintSource>,
    desc: &str,
) -> (r: SolverError)
    ensures
        refusal_error(*failure, *source, added@, desc@, r),
{
    match failure {
        AddConstraintFailure::Unsatisfiable => {
            let mut conflicting: Vec<ConstraintSource> = Vec::new();
            conflicting.push(source.clone());
            let mut i: usize = 0;
            while i < added.len()
                invariant
                    i <= added@.len(),
                    conflicting@ == seq![*source] + added@.subrange(0, i as int),
                decreases added@.len() - i,
            {
                conflicting.push(added[i].clone());
                i = i + 1;
                assert(conflicting@ =~= seq![*source] + added@.subrange(0, i as int));
            }
            assert(added@.subrange(0, i as int) =~= added@);
            let mut reason = String::new();
            reason.append("Cannot satisfy ");
            reason.append(desc);
            reason.append(": conflicts with existing constraints");
            let r = SolverError::Unsatisfiable { conflicting, reason };
            assert(refusal_error(*failure, *source, added@, desc@, r));
            r
        },
        AddConstraintFailure::Duplicate => {
            let mut m = String::new();
            m.append("Duplicate constraint: ");
            m.append(desc);
            let r = SolverError::Internal(m);
            assert(refusal_error(*failure, *source, added@, desc@, r));
            r
        },
        AddConstraintFailure::Internal(msg) => {
            let mut m = String::new();
            m.append("Internal solver error for ");
            m.append(desc);
            m.append(": ");
            m.append(msg.as_str());
            let r = SolverError::Internal(m);
            assert(refusal_error(*failure, *source, added@, desc@, r));
            r
        },
    }
}

/// Errors from the constraint solver.
#[derive(Debug)]
pub enum SolverError {
    /// The constraints cannot all hold.
    Unsatisfiable { conflicting: Vec<ConstraintSource>, reason: String },
    /// Some variables have no determined value.
    Underconstrained { free_variables: Vec<LayoutVariable> },
    /// A constraint names an element that does not exist.
    UndefinedElement { name: String, span: Span, suggestions: Vec<String> },
    /// The solver failed internally.
    Internal(String),
}

} // verus!
