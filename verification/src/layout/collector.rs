//! Collects the constraints that a document states, for the solver:
//! explicit sizes of shapes, the arrangement of layout containers, and
//! `constrain` statements.

use vstd::prelude::*;
use crate::ast::{
    ConstraintExpr, ConstraintProperty, Document, LayoutDecl, LayoutType, PropertyRef, Span, Spanned,
    Statement, StyleKey, StyleModifier, StyleValue,
};
use crate::num::Num;
use crate::strings::str_eq;
use super::config::LayoutConfig;
use super::solver::{
    constraint_views, ConstraintKind, ConstraintOrigin, ConstraintSource, ConstraintView,
    LayoutConstraint, LayoutProperty, LayoutVariable, SourceView, VariableView,
};
use super::opt_name;

verus! {

/// Zero.
pub open spec fn zero() -> Num {
    Num { milli: 0 }
}

/// The source of a user-written constraint.
pub open spec fn user_source(span: Span, desc: Seq<char>) -> SourceView {
    (span, desc, ConstraintOrigin::UserDefined, None)
}

/// The source of a constraint generated by a layout container.
pub open spec fn layout_source(span: Span, desc: Seq<char>) -> SourceView {
    (span, desc, ConstraintOrigin::LayoutContainer, None)
}

/// The source of an intrinsic constraint.
pub open spec fn intrinsic_source(desc: Seq<char>) -> SourceView {
    (Span { start: 0, end: 0 }, desc, ConstraintOrigin::Intrinsic, None)
}

/// Whether a style key is the one called `key`.
pub open spec fn key_named(k: StyleKey, key: Seq<char>) -> bool {
    match k {
        StyleKey::Width => key == "width"@,
        StyleKey::Height => key == "height"@,
        StyleKey::Size => key == "size"@,
        StyleKey::Gap => key == "gap"@,
        StyleKey::Custom(c) => c@ == key,
        _ => false,
    }
}

/// The value of the first numeric modifier called `key`.
pub open spec fn number_modifier(mods: Seq<Spanned<StyleModifier>>, key: Seq<char>) -> Option<Num>
    decreases mods.len(),
{
    if mods.len() == 0 {
        None
    } else if key_named(mods[0].node.key.node, key) && mods[0].node.value.node is Number {
        Some(mods[0].node.value.node->value)
    } else {
        number_modifier(mods.subrange(1, mods.len() as int), key)
    }
}

/// Whether style key `k` is the one called `key`.
fn key_is(k: &StyleKey, key: &str) -> (r: bool)
    ensures
        r == key_named(*k, key@),
{
    match k {
        StyleKey::Width => str_eq(key, "width"),
        StyleKey::Height => str_eq(key, "height"),
        StyleKey::Size => str_eq(key, "size"),
        StyleKey::Gap => str_eq(key, "gap"),
        StyleKey::Custom(c) => str_eq(c.as_str(), key),
        _ => false,
    }
}

/// Extract a numeric modifier value by key name.
pub fn extract_number_modifier(modifiers: &[Spanned<StyleModifier>], key: &str) -> (r: Option<Num>)
    ensures
        r == number_modifier(modifiers@, key@),
{
    let mut i: usize = 0;
    assert(modifiers@.subrange(0, modifiers@.len() as int) =~= modifiers@);
    while i < modifiers.len()
        invariant
            i <= modifiers@.len(),
            number_modifier(modifiers@, key@) == number_modifier(
                modifiers@.subrange(i as int, modifiers@.len() as int),
                key@,
            ),
        decreases modifiers@.len() - i,
    {
        let m = &modifiers[i];
        let ghost rest = modifiers@.subrange(i as int, modifiers@.len() as int);
        assert(rest[0] == modifiers@[i as int]);
        assert(rest.subrange(1, rest.len() as int) =~= modifiers@.subrange(i + 1, modifiers@.len() as int));
        if key_is(&m.node.key.node, key) {
            if let StyleValue::Number { value, .. } = &m.node.value.node {
                return Some(*value);
            }
        }
        i = i + 1;
    }
    None
}

/// The layout property a `constrain` property maps to.
pub open spec fn layout_property(p: ConstraintProperty) -> LayoutProperty {
    match p {
        ConstraintProperty::X | ConstraintProperty::Left => LayoutProperty::X,
        ConstraintProperty::Y | ConstraintProperty::Top => LayoutProperty::Y,
        ConstraintProperty::Width => LayoutProperty::Width,
        ConstraintProperty::Height => LayoutProperty::Height,
        ConstraintProperty::CenterX | ConstraintProperty::Center => LayoutProperty::CenterX,
        ConstraintProperty::CenterY => LayoutProperty::CenterY,
        ConstraintProperty::Right => LayoutProperty::X,
        ConstraintProperty::Bottom => LayoutProperty::Y,
        ConstraintProperty::AnchorX(_) => LayoutProperty::X,
        ConstraintProperty::AnchorY(_) => LayoutProperty::Y,
        ConstraintProperty::Anchor(_) => LayoutProperty::X,
    }
}

/// The property the two ends of a midpoint use, given the target's.
pub open spec fn midpoint_property(p: ConstraintProperty) -> LayoutProperty {
    match p {
        ConstraintProperty::CenterX | ConstraintProperty::Center => LayoutProperty::CenterX,
        ConstraintProperty::CenterY => LayoutProperty::CenterY,
        ConstraintProperty::X | ConstraintProperty::Left => LayoutProperty::X,
        ConstraintProperty::Y | ConstraintProperty::Top => LayoutProperty::Y,
        _ => LayoutProperty::X,
    }
}

/// The variable a property reference names.
pub open spec fn prop_variable(p: PropertyRef) -> VariableView {
    (p.element.node.leaf_text(), layout_property(p.property.node))
}

/// The constraints a `constrain` expression written at `span` stands for.
pub open spec fn constrain_views(e: ConstraintExpr, span: Span) -> Seq<ConstraintView> {
    match e {
        ConstraintExpr::Equal { left, right } => seq![
            (ConstraintKind::Equal, seq![prop_variable(left), prop_variable(right)], zero(),
            user_source(span, "constrain equality"@)),
        ],
        ConstraintExpr::EqualWithOffset { left, right, offset } => seq![
            (ConstraintKind::Equal, seq![prop_variable(left), prop_variable(right)], offset,
            user_source(span, "constrain with offset"@)),
        ],
        ConstraintExpr::Constant { left, value } => seq![
            (ConstraintKind::Fixed, seq![prop_variable(left)], value, user_source(
                span,
                "constrain constant"@,
            )),
        ],
        ConstraintExpr::GreaterOrEqual { left, value } => seq![
            (ConstraintKind::GreaterOrEqual, seq![prop_variable(left)], value, user_source(
                span,
                "constrain >="@,
            )),
        ],
        ConstraintExpr::LessOrEqual { left, value } => seq![
            (ConstraintKind::LessOrEqual, seq![prop_variable(left)], value, user_source(
                span,
                "constrain <="@,
            )),
        ],
        ConstraintExpr::Midpoint { target, a, b } => seq![
            (ConstraintKind::Midpoint, seq![
                prop_variable(target),
                (a.node.0@, midpoint_property(target.property.node)),
                (b.node.0@, midpoint_property(target.property.node)),
            ], zero(), user_source(span, "constrain midpoint"@)),
        ],
        ConstraintExpr::Contains { container, elements, .. } => contains_views(
            container,
            elements@,
            span,
        ),
    }
}

/// One left-edge hint per element a `contains` names.
pub open spec fn contains_views(
    container: Spanned<crate::ast::Identifier>,
    elements: Seq<Spanned<crate::ast::Identifier>>,
    span: Span,
) -> Seq<ConstraintView> {
    Seq::new(
        elements.len(),
        |i: int|
            (ConstraintKind::LessOrEqual, seq![(container.node.0@, LayoutProperty::X)], zero(),
            user_source(span, container.node.0@ + " contains "@ + elements[i].node.0@ + " (left)"@)),
    )
}

/// Names of the named children of a layout, in order.
pub open spec fn child_ids(children: Seq<Spanned<Statement>>) -> Seq<Seq<char>>
    decreases children.len(),
{
    if children.len() == 0 {
        Seq::empty()
    } else {
        child_ids(children.drop_last()) + match children.last().node {
            Statement::Shape(s) => opt_name(s.name),
            Statement::Layout(l) => opt_name(l.name),
            Statement::Group(g) => opt_name(g.name),
            Statement::Label(inner) => match *inner {
                Statement::Shape(s) => opt_name(s.name),
                _ => Seq::empty(),
            },
            _ => Seq::empty(),
        }
    }
}

/// Constraints `ids[i].p1 = ids[0].p1` for each later child.
pub open spec fn align_views(ids: Seq<Seq<char>>, p: LayoutProperty, span: Span, label: Seq<char>) -> Seq<
    ConstraintView,
> {
    Seq::new(
        (ids.len() - 1) as nat,
        |i: int|
            (ConstraintKind::Equal, seq![(ids[i + 1], p), (ids[0], p)], zero(), layout_source(
                span,
                label + ids[i + 1] + " = "@ + ids[0],
            )),
    )
}

/// Constraints `ids[i].p = ids[i-1].p + gap` for each later child.
pub open spec fn chain_views(
    ids: Seq<Seq<char>>,
    p: LayoutProperty,
    gap: Num,
    span: Span,
    label: Seq<char>,
) -> Seq<ConstraintView> {
    Seq::new(
        (ids.len() - 1) as nat,
        |i: int|
            (ConstraintKind::Equal, seq![(ids[i + 1], p), (ids[i], p)], gap, layout_source(
                span,
                label + ids[i + 1] + " after "@ + ids[i],
            )),
    )
}

/// Stack constraints: each later child at the first child's x and y.
pub open spec fn stack_views(ids: Seq<Seq<char>>, span: Span) -> Seq<ConstraintView>
    decreases ids.len(),
{
    if ids.len() <= 1 {
        Seq::empty()
    } else {
        let n = ids.len() - 1;
        stack_views(ids.take(n as int), span) + seq![
            (ConstraintKind::Equal, seq![(ids[n], LayoutProperty::X), (ids[0], LayoutProperty::X)],
            zero(), layout_source(span, "stack x: "@ + ids[n] + " = "@ + ids[0])),
            (ConstraintKind::Equal, seq![(ids[n], LayoutProperty::Y), (ids[0], LayoutProperty::Y)],
            zero(), layout_source(span, "stack y: "@ + ids[n] + " = "@ + ids[0])),
        ]
    }
}

/// The gap of a layout.
pub open spec fn layout_gap(l: LayoutDecl, config: LayoutConfig) -> Num {
    match number_modifier(l.modifiers@, "gap"@) {
        Some(g) => g,
        None => config.element_spacing,
    }
}

/// Arrangement constraints of one layout container written at `span`.
pub open spec fn container_views(l: LayoutDecl, ids: Seq<Seq<char>>, span: Span, config: LayoutConfig) -> Seq<
    ConstraintView,
> {
    match l.layout_type.node {
        LayoutType::Row => align_views(ids, LayoutProperty::Y, span, "row vertical alignment: "@)
            + chain_views(ids, LayoutProperty::X, layout_gap(l, config), span, "row horizontal: "@),
        LayoutType::Column => align_views(
            ids,
            LayoutProperty::X,
            span,
            "col horizontal alignment: "@,
        ) + chain_views(ids, LayoutProperty::Y, layout_gap(l, config), span, "col vertical: "@),
        LayoutType::Stack => stack_views(ids, span),
        LayoutType::Grid => Seq::empty(),
    }
}

/// Arrangement constraints of a statement (layouts with no named child add
/// nothing, not even for their children).
pub open spec fn stmt_layout_views(s: Spanned<Statement>, config: LayoutConfig) -> Seq<ConstraintView>
    decreases s,
{
    match s.node {
        Statement::Layout(l) => {
            let ids = child_ids(l.children@);
            if ids.len() == 0 {
                Seq::empty()
            } else {
                container_views(l, ids, s.span, config) + stmts_layout_views(l.children@, config)
            }
        },
        Statement::Group(g) => stmts_layout_views(g.children@, config),
        _ => Seq::empty(),
    }
}

/// Arrangement constraints of a list of statements.
pub open spec fn stmts_layout_views(ss: Seq<Spanned<Statement>>, config: LayoutConfig) -> Seq<
    ConstraintView,
>
    decreases ss,
{
    if ss.len() == 0 {
        Seq::empty()
    } else {
        stmts_layout_views(ss.subrange(0, ss.len() - 1), config) + stmt_layout_views(
            ss[ss.len() - 1],
            config,
        )
    }
}

/// The explicit size of a named shape: width (else size), then height (else size).
pub open spec fn shape_size_views(id: Seq<char>, mods: Seq<Spanned<StyleModifier>>) -> Seq<ConstraintView> {
    let w = match number_modifier(mods, "width"@) {
        Some(v) => Some(v),
        None => number_modifier(mods, "size"@),
    };
    let h = match number_modifier(mods, "height"@) {
        Some(v) => Some(v),
        None => number_modifier(mods, "size"@),
    };
    (match w {
        Some(v) => seq![
            (ConstraintKind::Fixed, seq![(id, LayoutProperty::Width)], v, intrinsic_source(
                id + " width"@,
            )),
        ],
        None => Seq::empty(),
    }) + (match h {
        Some(v) => seq![
            (ConstraintKind::Fixed, seq![(id, LayoutProperty::Height)], v, intrinsic_source(
                id + " height"@,
            )),
        ],
        None => Seq::empty(),
    })
}

/// Intrinsic (explicit size) constraints of a statement.
pub open spec fn stmt_intrinsic_views(s: Statement) -> Seq<ConstraintView>
    decreases s,
{
    match s {
        Statement::Shape(sh) => match sh.name {
            Some(n) => shape_size_views(n.node.0@, sh.modifiers@),
            None => Seq::empty(),
        },
        Statement::Layout(l) => stmts_intrinsic_views(l.children@),
        Statement::Group(g) => stmts_intrinsic_views(g.children@),
        Statement::Label(inner) => stmt_intrinsic_views(*inner),
        _ => Seq::empty(),
    }
}

/// Intrinsic constraints of a list of statements.
pub open spec fn stmts_intrinsic_views(ss: Seq<Spanned<Statement>>) -> Seq<ConstraintView>
    decreases ss,
{
    if ss.len() == 0 {
        Seq::empty()
    } else {
        stmts_intrinsic_views(ss.subrange(0, ss.len() - 1)) + stmt_intrinsic_views(
            ss[ss.len() - 1].node,
        )
    }
}

/// User (`constrain`) constraints of a statement.
pub open spec fn stmt_user_views(s: Spanned<Statement>) -> Seq<ConstraintView>
    decreases s,
{
    match s.node {
        Statement::Constrain(c) => constrain_views(c.expr, s.span),
        Statement::Layout(l) => stmts_user_views(l.children@),
        Statement::Group(g) => stmts_user_views(g.children@),
        _ => Seq::empty(),
    }
}

/// User constraints of a list of statements.
pub open spec fn stmts_user_views(ss: Seq<Spanned<Statement>>) -> Seq<ConstraintView>
    decreases ss,
{
    if ss.len() == 0 {
        Seq::empty()
    } else {
        stmts_user_views(ss.subrange(0, ss.len() - 1)) + stmt_user_views(ss[ss.len() - 1])
    }
}

/// All constraints of a document: intrinsic sizes, then layout
/// arrangement, then `constrain` statements.
pub open spec fn document_views(doc: Document, config: LayoutConfig) -> Seq<ConstraintView> {
    stmts_intrinsic_views(doc.statements@) + stmts_layout_views(doc.statements@, config)
        + stmts_user_views(doc.statements@)
}

/// Collects all constraints from a document.
#[derive(Debug)]
pub struct ConstraintCollector {
    pub constraints: Vec<LayoutConstraint>,
    pub config: LayoutConfig,
}

impl ConstraintCollector {
    /// The configuration the collector uses.
    pub open spec fn spec_config(&self) -> LayoutConfig {
        self.config
    }

    /// A collector with no constraints yet.
    pub fn new(config: LayoutConfig) -> (r: ConstraintCollector)
        ensures
            r.constraints@ == Seq::<LayoutConstraint>::empty(),
            r.spec_config() == config,
    {
        ConstraintCollector { constraints: Vec::new(), config }
    }

    /// Collect all constraints from a document.
    pub fn collect(&mut self, doc: &Document)
        ensures
            final(self).spec_config() == old(self).spec_config(),
            constraint_views(final(self).constraints@) == constraint_views(old(self).constraints@)
                + document_views(*doc, old(self).spec_config()),
    {
        self.collect_shape_intrinsics(&doc.statements);
        self.collect_layout_constraints(&doc.statements);
        self.collect_user_constraints(&doc.statements);
        assert(constraint_views(self.constraints@) =~= constraint_views(old(self).constraints@)
            + document_views(*doc, old(self).spec_config()));
    }

    /// Appends one constraint.
    fn add(&mut self, c: LayoutConstraint)
        ensures
            final(self).spec_config() == old(self).spec_config(),
            constraint_views(final(self).constraints@) == constraint_views(old(self).constraints@).push(
                c@,
            ),
    {
        self.constraints.push(c);
        assert(constraint_views(self.constraints@) =~= constraint_views(old(self).constraints@).push(c@));
    }
}

/// The variable a property reference names.
fn property_to_variable(prop_ref: &PropertyRef) -> (r: LayoutVariable)
    ensures
        r@ == prop_variable(*prop_ref),
{
    let id = prop_ref.element.node.leaf_string();
    let property = match &prop_ref.property.node {
        ConstraintProperty::X | ConstraintProperty::Left => LayoutProperty::X,
        ConstraintProperty::Y | ConstraintProperty::Top => LayoutProperty::Y,
        ConstraintProperty::Width => LayoutProperty::Width,
        ConstraintProperty::Height => LayoutProperty::Height,
        ConstraintProperty::CenterX | ConstraintProperty::Center => LayoutProperty::CenterX,
        ConstraintProperty::CenterY => LayoutProperty::CenterY,
        ConstraintProperty::Right => LayoutProperty::X,
        ConstraintProperty::Bottom => LayoutProperty::Y,
        ConstraintProperty::AnchorX(_) => LayoutProperty::X,
        ConstraintProperty::AnchorY(_) => LayoutProperty::Y,
        ConstraintProperty::Anchor(_) => LayoutProperty::X,
    };
    LayoutVariable { element_id: id, property }
}

fn midpoint_partner_property(p: &ConstraintProperty) -> (r: LayoutProperty)
    ensures
        r == midpoint_property(*p),
{
    match p {
        ConstraintProperty::CenterX | ConstraintProperty::Center => LayoutProperty::CenterX,
        ConstraintProperty::CenterY => LayoutProperty::CenterY,
        ConstraintProperty::X | ConstraintProperty::Left => LayoutProperty::X,
        ConstraintProperty::Y | ConstraintProperty::Top => LayoutProperty::Y,
        _ => LayoutProperty::X,
    }
}

/// Text `a + b`.
fn text2(a: &str, b: &str) -> (r: String)
    ensures
        r@ == a@ + b@,
{
    let mut s = String::from_str(a);
    s.append(b);
    s
}

/// Text `a + mid + b + tail`.
fn text3(a: &str, mid: &str, b: &str, tail: &str) -> (r: String)
    ensures
        r@ == a@ + mid@ + b@ + tail@,
{
    let mut s = String::from_str(a);
    s.append(mid);
    s.append(b);
    s.append(tail);
    s
}

impl ConstraintCollector {
    /// Collect a single `constrain` expression written at `span`.
    pub fn collect_constrain_expr(&mut self, expr: &ConstraintExpr, span: &Span)
        ensures
            final(self).spec_config() == old(self).spec_config(),
            constraint_views(final(self).constraints@) == constraint_views(old(self).constraints@)
                + constrain_views(*expr, *span),
    {
        let span = *span;
        match expr {
            ConstraintExpr::Equal { left, right } => {
                self.add(LayoutConstraint::Equal {
                    left: property_to_variable(left),
                    right: property_to_variable(right),
                    offset: Num { milli: 0 },
                    source: ConstraintSource::user(span, "constrain equality"),
                });
            },
            ConstraintExpr::EqualWithOffset { left, right, offset } => {
                self.add(LayoutConstraint::Equal {
                    left: property_to_variable(left),
                    right: property_to_variable(right),
                    offset: *offset,
                    source: ConstraintSource::user(span, "constrain with offset"),
                });
            },
            ConstraintExpr::Constant { left, value } => {
                self.add(LayoutConstraint::Fixed {
                    variable: property_to_variable(left),
                    value: *value,
                    source: ConstraintSource::user(span, "constrain constant"),
                });
            },
            ConstraintExpr::GreaterOrEqual { left, value } => {
                self.add(LayoutConstraint::GreaterOrEqual {
                    variable: property_to_variable(left),
                    value: *value,
                    source: ConstraintSource::user(span, "constrain >="),
                });
            },
            ConstraintExpr::LessOrEqual { left, value } => {
                self.add(LayoutConstraint::LessOrEqual {
                    variable: property_to_variable(left),
                    value: *value,
                    source: ConstraintSource::user(span, "constrain <="),
                });
            },
            ConstraintExpr::Midpoint { target, a, b } => {
                let p = midpoint_partner_property(&target.property.node);
                self.add(LayoutConstraint::Midpoint {
                    target: property_to_variable(target),
                    a: LayoutVariable { element_id: a.node.0.clone(), property: p },
                    b: LayoutVariable { element_id: b.node.0.clone(), property: p },
                    offset: Num { milli: 0 },
                    source: ConstraintSource::user(span, "constrain midpoint"),
                });
            },
            ConstraintExpr::Contains { container, elements, .. } => {
                let ghost start = constraint_views(self.constraints@);
                let ghost all = constrain_views(*expr, span);
                let mut i: usize = 0;
                while i < elements.len()
                    invariant
                        i <= elements@.len(),
                        self.spec_config() == old(self).spec_config(),
                        start == constraint_views(old(self).constraints@),
                        all == contains_views(*container, elements@, span),
                        all.len() == elements@.len(),
                        constraint_views(self.constraints@) == start + all.take(i as int),
                    decreases elements@.len() - i,
                {
                    let desc = text3(
                        container.node.0.as_str(),
                        " contains ",
                        elements[i].node.0.as_str(),
                        " (left)",
                    );
                    let c = LayoutConstraint::LessOrEqual {
                        variable: LayoutVariable::x(container.node.0.as_str()),
                        value: Num { milli: 0 },
                        source: ConstraintSource { span, description: desc, origin: ConstraintOrigin::UserDefined, template_instance: None },
                    };
                    assert(c@ == all[i as int]);
                    self.add(c);
                    i = i + 1;
                    assert(all.take(i as int) =~= all.take(i - 1).push(all[i - 1]));
                }
                assert(all.take(elements@.len() as int) =~= all);
            },
        }
        assert(constraint_views(self.constraints@) =~= constraint_views(old(self).constraints@)
            + constrain_views(*expr, span));
    }

    /// Collect the `constrain` statements of a list of statements.
    fn collect_user_constraints(&mut self, stmts: &Vec<Spanned<Statement>>)
        ensures
            final(self).spec_config() == old(self).spec_config(),
            constraint_views(final(self).constraints@) == constraint_views(old(self).constraints@)
                + stmts_user_views(stmts@),
        decreases stmts,
    {
        let mut i: usize = 0;
        while i < stmts.len()
            invariant
                i <= stmts@.len(),
                self.spec_config() == old(self).spec_config(),
                constraint_views(self.constraints@) == constraint_views(old(self).constraints@)
                    + stmts_user_views(stmts@.subrange(0, i as int)),
            decreases stmts@.len() - i,
        {
            let stmt = &stmts[i];
            let ghost before = constraint_views(self.constraints@);
            proof {
                let sub = stmts@.subrange(0, i + 1);
                assert(sub.subrange(0, sub.len() - 1) =~= stmts@.subrange(0, i as int));
                assert(sub[sub.len() - 1] == stmts@[i as int]);
            }
            assert(decreases_to!(stmts => stmts@[i as int].node));
            match &stmt.node {
                Statement::Constrain(c) => {
                    self.collect_constrain_expr(&c.expr, &stmt.span);
                },
                Statement::Layout(l) => {
                    self.collect_user_constraints(&l.children);
                },
                Statement::Group(g) => {
                    self.collect_user_constraints(&g.children);
                },
                _ => {
                    assert(stmt_user_views(*stmt) =~= Seq::<ConstraintView>::empty());
                },
            }
            assert(constraint_views(self.constraints@) =~= before + stmt_user_views(stmts@[i as int]));
            i = i + 1;
        }
        assert(stmts@.subrange(0, stmts@.len() as int) =~= stmts@);
    }

    /// Collect the explicit sizes of a statement.
    fn collect_statement_intrinsics(&mut self, stmt: &Statement)
        ensures
            final(self).spec_config() == old(self).spec_config(),
            constraint_views(final(self).constraints@) == constraint_views(old(self).constraints@)
                + stmt_intrinsic_views(*stmt),
        decreases stmt, 1nat,
    {
        match stmt {
            Statement::Shape(s) => {
                if let Some(name) = &s.name {
                    let id = &name.node.0;
                    let ghost start = constraint_views(self.constraints@);
                    let w = match extract_number_modifier(s.modifiers.as_slice(), "width") {
                        Some(v) => Some(v),
                        None => extract_number_modifier(s.modifiers.as_slice(), "size"),
                    };
                    if let Some(w) = w {
                        self.add(LayoutConstraint::Fixed {
                            variable: LayoutVariable::width(id.as_str()),
                            value: w,
                            source: ConstraintSource::intrinsic(text2(id.as_str(), " width").as_str()),
                        });
                    }
                    let h = match extract_number_modifier(s.modifiers.as_slice(), "height") {
                        Some(v) => Some(v),
                        None => extract_number_modifier(s.modifiers.as_slice(), "size"),
                    };
                    if let Some(h) = h {
                        self.add(LayoutConstraint::Fixed {
                            variable: LayoutVariable::height(id.as_str()),
                            value: h,
                            source: ConstraintSource::intrinsic(text2(id.as_str(), " height").as_str()),
                        });
                    }
                    assert(constraint_views(self.constraints@) =~= start + stmt_intrinsic_views(*stmt));
                } else {
                    assert(stmt_intrinsic_views(*stmt) =~= Seq::<ConstraintView>::empty());
                    assert(constraint_views(self.constraints@) =~= constraint_views(old(self).constraints@));
                }
            },
            Statement::Layout(l) => self.collect_shape_intrinsics(&l.children),
            Statement::Group(g) => self.collect_shape_intrinsics(&g.children),
            Statement::Label(inner) => self.collect_statement_intrinsics(inner),
            _ => {
                assert(stmt_intrinsic_views(*stmt) =~= Seq::<ConstraintView>::empty());
                assert(constraint_views(self.constraints@) =~= constraint_views(old(self).constraints@));
            },
        }
    }

    /// Collect the explicit sizes of a list of statements.
    fn collect_shape_intrinsics(&mut self, stmts: &Vec<Spanned<Statement>>)
        ensures
            final(self).spec_config() == old(self).spec_config(),
            constraint_views(final(self).constraints@) == constraint_views(old(self).constraints@)
                + stmts_intrinsic_views(stmts@),
        decreases stmts, 0nat,
    {
        let mut i: usize = 0;
        while i < stmts.len()
            invariant
                i <= stmts@.len(),
                self.spec_config() == old(self).spec_config(),
                constraint_views(self.constraints@) == constraint_views(old(self).constraints@)
                    + stmts_intrinsic_views(stmts@.subrange(0, i as int)),
            decreases stmts@.len() - i,
        {
            let ghost before = constraint_views(self.constraints@);
            proof {
                let sub = stmts@.subrange(0, i + 1);
                assert(sub.subrange(0, sub.len() - 1) =~= stmts@.subrange(0, i as int));
                assert(sub[sub.len() - 1] == stmts@[i as int]);
            }
            assert(decreases_to!(stmts => stmts@[i as int].node));
            self.collect_statement_intrinsics(&stmts[i].node);
            assert(constraint_views(self.constraints@) =~= before + stmt_intrinsic_views(stmts@[i as int].node));
            i = i + 1;
        }
        assert(stmts@.subrange(0, stmts@.len() as int) =~= stmts@);
    }
}

/// Names of the named children of a layout, in order.
fn get_child_ids(children: &Vec<Spanned<Statement>>) -> (r: Vec<String>)
    ensures
        crate::strings::views(r@) == child_ids(children@),
{
    let mut ids: Vec<String> = Vec::new();
    let mut i: usize = 0;
    while i < children.len()
        invariant
            i <= children@.len(),
            crate::strings::views(ids@) == child_ids(children@.take(i as int)),
        decreases children@.len() - i,
    {
        let ghost before = crate::strings::views(ids@);
        assert(children@.take(i + 1).drop_last() =~= children@.take(i as int));
        assert(children@.take(i + 1).last() == children@[i as int]);
        let n: Option<&Spanned<crate::ast::Identifier>> = match &children[i].node {
            Statement::Shape(s) => s.name.as_ref(),
            Statement::Layout(l) => l.name.as_ref(),
            Statement::Group(g) => g.name.as_ref(),
            Statement::Label(inner) => match &**inner {
                Statement::Shape(s) => s.name.as_ref(),
                _ => None,
            },
            _ => None,
        };
        match n {
            Some(x) => {
                ids.push(x.node.0.clone());
            },
            None => {},
        }
        assert(crate::strings::views(ids@) =~= child_ids(children@.take(i + 1)));
        i = i + 1;
    }
    assert(children@.take(children@.len() as int) =~= children@);
    ids
}

impl ConstraintCollector {
    /// `ids[i].p = ids[0].p` for each later child, labelled `label`.
    fn collect_alignment(&mut self, ids: &Vec<String>, p: LayoutProperty, span: Span, label: &str)
        requires
            ids@.len() > 0,
        ensures
            final(self).spec_config() == old(self).spec_config(),
            constraint_views(final(self).constraints@) == constraint_views(old(self).constraints@)
                + align_views(crate::strings::views(ids@), p, span, label@),
    {
        let ghost all = align_views(crate::strings::views(ids@), p, span, label@);
        let mut i: usize = 1;
        while i < ids.len()
            invariant
                1 <= i <= ids@.len(),
                self.spec_config() == old(self).spec_config(),
                all == align_views(crate::strings::views(ids@), p, span, label@),
                constraint_views(self.constraints@) == constraint_views(old(self).constraints@)
                    + all.take(i - 1),
            decreases ids@.len() - i,
        {
            let desc = text3(label, ids[i].as_str(), " = ", ids[0].as_str());
            let c = LayoutConstraint::Equal {
                left: LayoutVariable::new(ids[i].as_str(), p),
                right: LayoutVariable::new(ids[0].as_str(), p),
                offset: Num { milli: 0 },
                source: ConstraintSource { span, description: desc, origin: ConstraintOrigin::LayoutContainer, template_instance: None },
            };
            assert(c@ == all[i - 1]);
            self.add(c);
            assert(all.take(i as int) =~= all.take(i - 1).push(all[i - 1]));
            i = i + 1;
        }
        assert(all.take(ids@.len() - 1) =~= all);
    }

    /// `ids[i].p = ids[i-1].p + gap` for each later child, labelled `label`.
    fn collect_chain(&mut self, ids: &Vec<String>, p: LayoutProperty, gap: Num, span: Span, label: &str)
        requires
            ids@.len() > 0,
        ensures
            final(self).spec_config() == old(self).spec_config(),
            constraint_views(final(self).constraints@) == constraint_views(old(self).constraints@)
                + chain_views(crate::strings::views(ids@), p, gap, span, label@),
    {
        let ghost all = chain_views(crate::strings::views(ids@), p, gap, span, label@);
        let mut i: usize = 1;
        while i < ids.len()
            invariant
                1 <= i <= ids@.len(),
                self.spec_config() == old(self).spec_config(),
                all == chain_views(crate::strings::views(ids@), p, gap, span, label@),
                constraint_views(self.constraints@) == constraint_views(old(self).constraints@)
                    + all.take(i - 1),
            decreases ids@.len() - i,
        {
            let desc = text3(label, ids[i].as_str(), " after ", ids[i - 1].as_str());
            let c = LayoutConstraint::Equal {
                left: LayoutVariable::new(ids[i].as_str(), p),
                right: LayoutVariable::new(ids[i - 1].as_str(), p),
                offset: gap,
                source: ConstraintSource { span, description: desc, origin: ConstraintOrigin::LayoutContainer, template_instance: None },
            };
            assert(c@ == all[i - 1]);
            self.add(c);
            assert(all.take(i as int) =~= all.take(i - 1).push(all[i - 1]));
            i = i + 1;
        }
        assert(all.take(ids@.len() - 1) =~= all);
    }

    /// Stack: every later child at the first child's x and y.
    fn collect_stack_constraints(&mut self, ids: &Vec<String>, span: Span)
        requires
            ids@.len() > 0,
        ensures
            final(self).spec_config() == old(self).spec_config(),
            constraint_views(final(self).constraints@) == constraint_views(old(self).constraints@)
                + stack_views(crate::strings::views(ids@), span),
    {
        let ghost v = crate::strings::views(ids@);
        let mut i: usize = 1;
        assert(stack_views(v.take(1), span) =~= Seq::<ConstraintView>::empty());
        while i < ids.len()
            invariant
                1 <= i <= ids@.len(),
                v == crate::strings::views(ids@),
                self.spec_config() == old(self).spec_config(),
                constraint_views(self.constraints@) == constraint_views(old(self).constraints@)
                    + stack_views(v.take(i as int), span),
            decreases ids@.len() - i,
        {
            let dx = text3("stack x: ", ids[i].as_str(), " = ", ids[0].as_str());
            self.add(LayoutConstraint::Equal {
                left: LayoutVariable::x(ids[i].as_str()),
                right: LayoutVariable::x(ids[0].as_str()),
                offset: Num { milli: 0 },
                source: ConstraintSource { span, description: dx, origin: ConstraintOrigin::LayoutContainer, template_instance: None },
            });
            let dy = text3("stack y: ", ids[i].as_str(), " = ", ids[0].as_str());
            self.add(LayoutConstraint::Equal {
                left: LayoutVariable::y(ids[i].as_str()),
                right: LayoutVariable::y(ids[0].as_str()),
                offset: Num { milli: 0 },
                source: ConstraintSource { span, description: dy, origin: ConstraintOrigin::LayoutContainer, template_instance: None },
            });
            assert(v.take(i + 1).take(i as int) =~= v.take(i as int));
            assert(v.take(i + 1)[i as int] == v[i as int]);
            assert(v.take(i + 1)[0] == v[0]);
            i = i + 1;
        }
        assert(v.take(ids@.len() as int) =~= v);
    }

    /// Arrangement constraints of one layout container.
    fn collect_container(&mut self, l: &LayoutDecl, ids: &Vec<String>, span: Span)
        requires
            ids@.len() > 0,
        ensures
            final(self).spec_config() == old(self).spec_config(),
            constraint_views(final(self).constraints@) == constraint_views(old(self).constraints@)
                + container_views(*l, crate::strings::views(ids@), span, old(self).spec_config()),
    {
        let ghost v = crate::strings::views(ids@);
        match l.layout_type.node {
            LayoutType::Row => {
                let gap = match extract_number_modifier(l.modifiers.as_slice(), "gap") {
                    Some(g) => g,
                    None => self.config.element_spacing,
                };
                self.collect_alignment(ids, LayoutProperty::Y, span, "row vertical alignment: ");
                self.collect_chain(ids, LayoutProperty::X, gap, span, "row horizontal: ");
            },
            LayoutType::Column => {
                let gap = match extract_number_modifier(l.modifiers.as_slice(), "gap") {
                    Some(g) => g,
                    None => self.config.element_spacing,
                };
                self.collect_alignment(ids, LayoutProperty::X, span, "col horizontal alignment: ");
                self.collect_chain(ids, LayoutProperty::Y, gap, span, "col vertical: ");
            },
            LayoutType::Stack => {
                self.collect_stack_constraints(ids, span);
            },
            LayoutType::Grid => {},
        }
        assert(constraint_views(self.constraints@) =~= constraint_views(old(self).constraints@)
            + container_views(*l, v, span, old(self).spec_config()));
    }

    /// Arrangement constraints of a statement.
    fn collect_layout_statement(&mut self, stmt: &Spanned<Statement>)
        ensures
            final(self).spec_config() == old(self).spec_config(),
            constraint_views(final(self).constraints@) == constraint_views(old(self).constraints@)
                + stmt_layout_views(*stmt, old(self).spec_config()),
        decreases stmt, 1nat,
    {
        match &stmt.node {
            Statement::Layout(l) => {
                let child_ids = get_child_ids(&l.children);
                if child_ids.len() == 0 {
                    assert(constraint_views(self.constraints@) =~= constraint_views(old(self).constraints@)
                        + stmt_layout_views(*stmt, old(self).spec_config()));
                    return;
                }
                self.collect_container(l, &child_ids, stmt.span);
                self.collect_layout_constraints(&l.children);
            },
            Statement::Group(g) => {
                self.collect_layout_constraints(&g.children);
            },
            _ => {},
        }
        assert(constraint_views(self.constraints@) =~= constraint_views(old(self).constraints@)
            + stmt_layout_views(*stmt, old(self).spec_config()));
    }

    /// Arrangement constraints of a list of statements.
    fn collect_layout_constraints(&mut self, stmts: &Vec<Spanned<Statement>>)
        ensures
            final(self).spec_config() == old(self).spec_config(),
            constraint_views(final(self).constraints@) == constraint_views(old(self).constraints@)
                + stmts_layout_views(stmts@, old(self).spec_config()),
        decreases stmts, 0nat,
    {
        let ghost cfg = self.spec_config();
        let mut i: usize = 0;
        while i < stmts.len()
            invariant
                i <= stmts@.len(),
                self.spec_config() == cfg,
                cfg == old(self).spec_config(),
                constraint_views(self.constraints@) == constraint_views(old(self).constraints@)
                    + stmts_layout_views(stmts@.subrange(0, i as int), cfg),
            decreases stmts@.len() - i,
        {
            let ghost before = constraint_views(self.constraints@);
            proof {
                let sub = stmts@.subrange(0, i + 1);
                assert(sub.subrange(0, sub.len() - 1) =~= stmts@.subrange(0, i as int));
                assert(sub[sub.len() - 1] == stmts@[i as int]);
            }
            assert(decreases_to!(stmts => stmts@[i as int]));
            self.collect_layout_statement(&stmts[i]);
            assert(constraint_views(self.constraints@) =~= before + stmt_layout_views(stmts@[i as int], cfg));
            i = i + 1;
        }
        assert(stmts@.subrange(0, stmts@.len() as int) =~= stmts@);
    }
}

} // verus!
