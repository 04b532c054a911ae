//! Errors of the layout engine.

use vstd::prelude::*;
use crate::ast::Span;
use crate::strings::{join_seqs, join_strings, views};
use super::solver::SolverError;

verus! {

/// Errors that can occur during layout computation.
#[derive(Debug)]
pub enum LayoutError {
    /// Reference to an undefined element identifier.
    UndefinedIdentifier { name: String, span: Span, suggestions: Vec<String> },
    /// Position constraints that cannot all be satisfied.
    ConflictingConstraints { constraints: Vec<String>, reason: String },
    /// Circular dependency in position constraints.
    CircularConstraint { cycle: Vec<String> },
    /// Invalid layout configuration.
    InvalidLayout { element: String, reason: String },
    /// Element path not found during constraint resolution.
    PathNotFound { path: String, span: Span, suggestions: Vec<String> },
    /// Constraint solver error.
    SolverError(SolverError),
    /// Invalid anchor reference.
    InvalidAnchor { element: String, anchor: String, valid_anchors: String, span: Span },
}

/// The text a solver error displays.
pub open spec fn solver_error_text(e: SolverError) -> Seq<char> {
    match e {
        SolverError::Unsatisfiable { reason, .. } => "Unsatisfiable constraints: "@ + reason@,
        SolverError::Underconstrained { .. } =>
            "Underconstrained system: variables have no determined value"@,
        SolverError::UndefinedElement { name, .. } => "Undefined element: "@ + name@,
        SolverError::Internal(m) => "Internal solver error: "@ + m@,
    }
}

/// The text a layout error displays.
pub open spec fn layout_error_text(e: LayoutError) -> Seq<char> {
    match e {
        LayoutError::UndefinedIdentifier { name, .. } => "undefined identifier '"@ + name@ + "'"@,
        LayoutError::ConflictingConstraints { reason, .. } => "conflicting constraints: "@ + reason@,
        LayoutError::CircularConstraint { cycle } =>
            "circular constraint dependency: "@ + join_seqs(views(cycle@), " -> "@),
        LayoutError::InvalidLayout { element, reason } =>
            "invalid layout for element '"@ + element@ + "': "@ + reason@,
        LayoutError::PathNotFound { path, .. } => "element path '"@ + path@ + "' not found"@,
        LayoutError::SolverError(s) => "constraint solver error: "@ + solver_error_text(s),
        LayoutError::InvalidAnchor { element, anchor, valid_anchors, .. } =>
            "invalid anchor '"@ + anchor@ + "' on element '"@ + element@ + "' (valid anchors: "@
                + valid_anchors@ + ")"@,
    }
}

impl SolverError {
    /// The text this error displays; what `to_string` gives.
    pub fn to_string(&self) -> (r: String)
        ensures
            r@ == solver_error_text(*self),
    {
        self.message()
    }

    /// The text this error displays.
    pub fn message(&self) -> (r: String)
        ensures
            r@ == solver_error_text(*self),
    {
        match self {
            SolverError::Unsatisfiable { reason, .. } => {
                let mut s = String::from_str("Unsatisfiable constraints: ");
                s.append(reason.as_str());
                s
            },
            SolverError::Underconstrained { .. } => String::from_str(
                "Underconstrained system: variables have no determined value",
            ),
            SolverError::UndefinedElement { name, .. } => {
                let mut s = String::from_str("Undefined element: ");
                s.append(name.as_str());
                s
            },
            SolverError::Internal(m) => {
                let mut s = String::from_str("Internal solver error: ");
                s.append(m.as_str());
                s
            },
        }
    }
}

impl LayoutError {
    /// An undefined identifier error with suggestions.
    pub fn undefined(name: &str, span: Span, suggestions: Vec<String>) -> (r: LayoutError)
        ensures
            r matches LayoutError::UndefinedIdentifier { name: n, span: sp, suggestions: sg }
                && n@ == name@ && sp == span && sg == suggestions,
    {
        LayoutError::UndefinedIdentifier { name: String::from_str(name), span, suggestions }
    }

    /// A conflicting constraints error.
    pub fn conflicting(constraints: Vec<String>, reason: &str) -> (r: LayoutError)
        ensures
            r matches LayoutError::ConflictingConstraints { constraints: c, reason: re }
                && c == constraints && re@ == reason@,
    {
        LayoutError::ConflictingConstraints { constraints, reason: String::from_str(reason) }
    }

    /// A circular constraint error.
    pub fn circular(cycle: Vec<String>) -> (r: LayoutError)
        ensures
            r == (LayoutError::CircularConstraint { cycle }),
    {
        LayoutError::CircularConstraint { cycle }
    }

    /// An invalid layout error.
    pub fn invalid_layout(element: &str, reason: &str) -> (r: LayoutError)
        ensures
            r matches LayoutError::InvalidLayout { element: e, reason: re } && e@ == element@
                && re@ == reason@,
    {
        LayoutError::InvalidLayout {
            element: String::from_str(element),
            reason: String::from_str(reason),
        }
    }

    /// The source span, for the variants that carry one.
    pub fn span(&self) -> (r: Option<&Span>)
        ensures
            r == match *self {
                LayoutError::UndefinedIdentifier { span, .. } => Some(&span),
                LayoutError::PathNotFound { span, .. } => Some(&span),
                LayoutError::InvalidAnchor { span, .. } => Some(&span),
                _ => None,
            },
    {
        match self {
            LayoutError::UndefinedIdentifier { span, .. } => Some(span),
            LayoutError::PathNotFound { span, .. } => Some(span),
            LayoutError::InvalidAnchor { span, .. } => Some(span),
            _ => None,
        }
    }

    /// The suggestions, for the variants that carry them.
    pub fn suggestions(&self) -> (r: Option<&[String]>)
        ensures
            match *self {
                LayoutError::UndefinedIdentifier { suggestions, .. } => r matches Some(s)
                    && s@ == suggestions@,
                LayoutError::PathNotFound { suggestions, .. } => r matches Some(s) && s@
                    == suggestions@,
                _ => r is None,
            },
    {
        match self {
            LayoutError::UndefinedIdentifier { suggestions, .. } => Some(suggestions.as_slice()),
            LayoutError::PathNotFound { suggestions, .. } => Some(suggestions.as_slice()),
            _ => None,
        }
    }

    /// A path-not-found error.
    pub fn path_not_found(path: &str, span: Span, suggestions: Vec<String>) -> (r: LayoutError)
        ensures
            r matches LayoutError::PathNotFound { path: p, span: sp, suggestions: sg } && p@
                == path@ && sp == span && sg == suggestions,
    {
        LayoutError::PathNotFound { path: String::from_str(path), span, suggestions }
    }

    /// A layout error wrapping a solver error.
    pub fn solver_error(e: SolverError) -> (r: LayoutError)
        ensures
            r == LayoutError::SolverError(e),
    {
        LayoutError::SolverError(e)
    }

    /// An invalid anchor error; the valid anchors are listed joined by `", "`.
    pub fn invalid_anchor(element: &str, anchor: &str, valid_anchors: Vec<String>, span: Span) -> (r:
        LayoutError)
        ensures
            r matches LayoutError::InvalidAnchor { element: e, anchor: a, valid_anchors: v, span: sp }
                && e@ == element@ && a@ == anchor@ && v@ == join_seqs(views(valid_anchors@), ", "@)
                && sp == span,
    {
        LayoutError::InvalidAnchor {
            element: String::from_str(element),
            anchor: String::from_str(anchor),
            valid_anchors: join_strings(valid_anchors.as_slice(), ", "),
            span,
        }
    }

    /// The text this error displays; what `to_string` gives.
    pub fn to_string(&self) -> (r: String)
        ensures
            r@ == layout_error_text(*self),
    {
        self.message()
    }

    /// The text this error displays.
    pub fn message(&self) -> (r: String)
        ensures
            r@ == layout_error_text(*self),
    {
        match self {
            LayoutError::UndefinedIdentifier { name, .. } => {
                let mut s = String::from_str("undefined identifier '");
                s.append(name.as_str());
                s.append("'");
                s
            },
            LayoutError::ConflictingConstraints { reason, .. } => {
                let mut s = String::from_str("conflicting constraints: ");
                s.append(reason.as_str());
                s
            },
            LayoutError::CircularConstraint { cycle } => {
                let mut s = String::from_str("circular constraint dependency: ");
                let j = join_strings(cycle.as_slice(), " -> ");
                s.append(j.as_str());
                s
            },
            LayoutError::InvalidLayout { element, reason } => {
                let mut s = String::from_str("invalid layout for element '");
                s.append(element.as_str());
                s.append("': ");
                s.append(reason.as_str());
                s
            },
            LayoutError::PathNotFound { path, .. } => {
                let mut s = String::from_str("element path '");
                s.append(path.as_str());
                s.append("' not found");
                s
            },
            LayoutError::SolverError(e) => {
                let mut s = String::from_str("constraint solver error: ");
                let m = e.message();
                s.append(m.as_str());
                s
            },
            LayoutError::InvalidAnchor { element, anchor, valid_anchors, .. } => {
                let mut s = String::from_str("invalid anchor '");
                s.append(anchor.as_str());
                s.append("' on element '");
                s.append(element.as_str());
                s.append("' (valid anchors: ");
                s.append(valid_anchors.as_str());
                s.append(")");
                s
            },
        }
    }
}

} // verus!
