//! The document-level parts of layout computation: which template instance
//! each element and constraint belongs to, positional-constraint conflicts,
//! and the constraints that layouts and shapes contribute.

use vstd::prelude::*;
use crate::ast::{
    AnchorDecl, Document, GroupDecl, Identifier, LayoutDecl, ShapeDecl, ShapeType, Span, Spanned,
    Statement, StyleKey, StyleModifier, StyleValue,
};
use crate::collections::NameMap;
use crate::strings::{chars_of, views};
use super::solver::{
    constraint_views, ConstraintKind, ConstraintOrigin, ConstraintSource, ConstraintView,
    LayoutConstraint, LayoutProperty, LayoutVariable,
};
use super::collector::{
    extract_number_modifier, layout_source, number_modifier, stmts_user_views, zero,
    ConstraintCollector,
};
use crate::ast::{clone_vec, ConstraintDecl, PositionRelation};
use crate::ast::LayoutType;
use super::error::LayoutError;
use super::config::LayoutConfig;
use super::lint::first_label;
use crate::num::{num_text, Num};
use vstd::std_specs::cmp::PartialEqSpecImpl;

verus! {

/// Classification of a constraint's scope for two-phase solving.
#[derive(Debug)]
pub enum ConstraintScope {
    /// Constraint is internal to the named template instance.
    Local(String),
    /// Constraint spans templates or involves top-level elements.
    Global,
}

impl PartialEq for ConstraintScope {
    fn eq(&self, other: &Self) -> (r: bool) {
        match (self, other) {
            (ConstraintScope::Local(a), ConstraintScope::Local(b)) => crate::strings::str_eq(a.as_str(), b.as_str()),
            (ConstraintScope::Global, ConstraintScope::Global) => true,
            _ => false,
        }
    }
}

impl PartialEqSpecImpl for ConstraintScope {
    open spec fn obeys_eq_spec() -> bool {
        true
    }

    open spec fn eq_spec(&self, other: &Self) -> bool {
        match (self, other) {
            (ConstraintScope::Local(a), ConstraintScope::Local(b)) => a@ == b@,
            (ConstraintScope::Global, ConstraintScope::Global) => true,
            _ => false,
        }
    }
}

/// The scope of a constraint, by the text of the template instance.
pub open spec fn scope_of(c: LayoutConstraint, element_to_template: NameMap<String>) -> Option<Seq<char>> {
    match c.spec_source().template_instance {
        Some(t) => Some(t@),
        None => {
            let ids = c.element_id_texts();
            if ids.len() > 0 && element_to_template.lookup(ids[0]) is Some && (forall|i: int|
                0 <= i < ids.len() ==> #[trigger] element_to_template.lookup(ids[i]) is Some
                    && element_to_template.lookup(ids[i]).unwrap()@ == element_to_template.lookup(
                    ids[0],
                ).unwrap()@) {
                Some(element_to_template.lookup(ids[0]).unwrap()@)
            } else {
                None
            }
        },
    }
}

/// Classify a constraint as Local (within one template) or Global
/// (cross-template): local to the source's template instance when one is
/// set, else local to the template all its elements belong to, else global.
pub fn classify_constraint(constraint: &LayoutConstraint, element_to_template: &NameMap<String>) -> (r:
    ConstraintScope)
    requires
        element_to_template.wf(),
    ensures
        match scope_of(*constraint, *element_to_template) {
            Some(t) => r matches ConstraintScope::Local(s) && s@ == t,
            None => r is Global,
        },
{
    let source = constraint.source();
    if let Some(instance) = &source.template_instance {
        return ConstraintScope::Local(instance.clone());
    }
    let element_ids = constraint.element_ids();
    let ghost ids = constraint.element_id_texts();
    let first = element_to_template.get(element_ids[0]);
    match first {
        None => ConstraintScope::Global,
        Some(t0) => {
            let t0c = chars_of(t0.as_str());
            let mut i: usize = 1;
            while i < element_ids.len()
                invariant
                    1 <= i <= element_ids@.len(),
                    constraint.spec_source().template_instance is None,
                    ids == constraint.element_id_texts(),
                    element_ids@.len() == ids.len(),
                    forall|k: int| 0 <= k < element_ids@.len() ==> #[trigger] element_ids@[k]@ == ids[k],
                    element_to_template.wf(),
                    element_to_template.lookup(ids[0]) == Some(*t0),
                    t0c@ == t0@,
                    forall|k: int|
                        0 <= k < i ==> #[trigger] element_to_template.lookup(ids[k]) is Some
                            && element_to_template.lookup(ids[k]).unwrap()@ == t0@,
                decreases element_ids@.len() - i,
            {
                match element_to_template.get(element_ids[i]) {
                    None => {
                        assert(element_to_template.lookup(ids[i as int]) is None);
                        return ConstraintScope::Global;
                    },
                    Some(t) => {
                        let tc = chars_of(t.as_str());
                        if !crate::strings::chars_eq(&tc, &t0c) {
                            assert(element_to_template.lookup(ids[i as int]).unwrap()@ != t0@);
                            return ConstraintScope::Global;
                        }
                    },
                }
                i = i + 1;
            }
            ConstraintScope::Local(t0.clone())
        },
    }
}

/// The constraints local to instance `t`, in order.
pub open spec fn local_part(cs: Seq<LayoutConstraint>, m: NameMap<String>, t: Seq<char>) -> Seq<
    LayoutConstraint,
>
    decreases cs.len(),
{
    if cs.len() == 0 {
        Seq::empty()
    } else {
        let p = local_part(cs.drop_last(), m, t);
        if scope_of(cs.last(), m) == Some(t) {
            p.push(cs.last())
        } else {
            p
        }
    }
}

/// The global constraints, in order.
pub open spec fn global_part(cs: Seq<LayoutConstraint>, m: NameMap<String>) -> Seq<LayoutConstraint>
    decreases cs.len(),
{
    if cs.len() == 0 {
        Seq::empty()
    } else {
        let p = global_part(cs.drop_last(), m);
        if scope_of(cs.last(), m) is None {
            p.push(cs.last())
        } else {
            p
        }
    }
}

/// The template instances that have local constraints, in order of first use.
pub open spec fn local_instances(cs: Seq<LayoutConstraint>, m: NameMap<String>) -> Seq<Seq<char>>
    decreases cs.len(),
{
    if cs.len() == 0 {
        Seq::empty()
    } else {
        let p = local_instances(cs.drop_last(), m);
        match scope_of(cs.last(), m) {
            Some(t) => if p.contains(t) {
                p
            } else {
                p.push(t)
            },
            None => p,
        }
    }
}

proof fn lemma_local_part_absent(cs: Seq<LayoutConstraint>, m: NameMap<String>, t: Seq<char>)
    requires
        !local_instances(cs, m).contains(t),
    ensures
        local_part(cs, m, t) == Seq::<LayoutConstraint>::empty(),
    decreases cs.len(),
{
    if cs.len() > 0 {
        let p = local_instances(cs.drop_last(), m);
        if p.contains(t) {
            let k = choose|k: int| 0 <= k < p.len() && p[k] == t;
            if scope_of(cs.last(), m) is Some {
                let u = scope_of(cs.last(), m).unwrap();
                if !p.contains(u) {
                    assert(p.push(u)[k] == t);
                }
            }
            assert(local_instances(cs, m)[k] == t);
        }
        if scope_of(cs.last(), m) == Some(t) {
            assert(p.push(t)[p.len() as int] == t);
        }
        lemma_local_part_absent(cs.drop_last(), m, t);
    }
}

/// How many constraints the local lists of the instances `ts` hold together.
pub open spec fn local_total(cs: Seq<LayoutConstraint>, m: NameMap<String>, ts: Seq<Seq<char>>) -> nat
    decreases ts.len(),
{
    if ts.len() == 0 {
        0
    } else {
        local_total(cs, m, ts.drop_last()) + local_part(cs, m, ts.last()).len()
    }
}

proof fn lemma_local_instances_distinct(cs: Seq<LayoutConstraint>, m: NameMap<String>)
    ensures
        local_instances(cs, m).no_duplicates(),
    decreases cs.len(),
{
    if cs.len() > 0 {
        lemma_local_instances_distinct(cs.drop_last(), m);
    }
}

/// Adding one constraint to the end adds one to the local total of the
/// instances that include its own.
proof fn lemma_local_total_step(cs: Seq<LayoutConstraint>, m: NameMap<String>, ts: Seq<Seq<char>>)
    requires
        cs.len() > 0,
        ts.no_duplicates(),
    ensures
        local_total(cs, m, ts) == local_total(cs.drop_last(), m, ts) + match scope_of(cs.last(), m) {
            Some(t) => if ts.contains(t) { 1nat } else { 0nat },
            None => 0nat,
        },
    decreases ts.len(),
{
    if ts.len() > 0 {
        let q = ts.drop_last();
        assert(q.no_duplicates()) by {
            assert forall|i: int, j: int| 0 <= i < q.len() && 0 <= j < q.len() && i != j implies q[i] != q[j] by {
                assert(q[i] == ts[i] && q[j] == ts[j]);
            }
        }
        lemma_local_total_step(cs, m, q);
        match scope_of(cs.last(), m) {
            Some(t) => {
                if ts.last() == t {
                    assert(!q.contains(t)) by {
                        if q.contains(t) {
                            let k = choose|k: int| 0 <= k < q.len() && q[k] == t;
                            assert(ts[k] == ts[ts.len() - 1]);
                        }
                    }
                    assert(ts.contains(t)) by {
                        assert(ts[ts.len() - 1] == t);
                    }
                } else {
                    assert(ts.contains(t) == q.contains(t)) by {
                        if ts.contains(t) {
                            let k = choose|k: int| 0 <= k < ts.len() && ts[k] == t;
                            assert(k < ts.len() - 1);
                            assert(q[k] == t);
                        }
                        if q.contains(t) {
                            let k = choose|k: int| 0 <= k < q.len() && q[k] == t;
                            assert(ts[k] == t);
                        }
                    }
                }
            },
            None => {},
        }
    }
}

/// Partitioning neither loses nor repeats a constraint: the global list and
/// the local lists together hold exactly as many constraints as were given.
pub proof fn lemma_partition_counts(cs: Seq<LayoutConstraint>, m: NameMap<String>)
    ensures
        global_part(cs, m).len() + local_total(cs, m, local_instances(cs, m)) == cs.len(),
    decreases cs.len(),
{
    if cs.len() > 0 {
        let p = cs.drop_last();
        lemma_partition_counts(p, m);
        lemma_local_instances_distinct(p, m);
        lemma_local_instances_distinct(cs, m);
        let lp = local_instances(p, m);
        match scope_of(cs.last(), m) {
            Some(t) => {
                if lp.contains(t) {
                    lemma_local_total_step(cs, m, lp);
                } else {
                    lemma_local_total_step(cs, m, lp);
                    assert(local_instances(cs, m) == lp.push(t));
                    assert(lp.push(t).drop_last() =~= lp);
                    lemma_local_part_absent(p, m, t);
                }
            },
            None => {
                lemma_local_total_step(cs, m, lp);
            },
        }
    }
}

/// Every template instance that `partition_constraints` lists has at least one
/// local constraint, and every instance with a local constraint is listed.
pub proof fn lemma_local_instances_nonempty(cs: Seq<LayoutConstraint>, m: NameMap<String>, t: Seq<char>)
    ensures
        local_instances(cs, m).contains(t) <==> local_part(cs, m, t).len() > 0,
    decreases cs.len(),
{
    if cs.len() > 0 {
        let p = cs.drop_last();
        lemma_local_instances_nonempty(p, m, t);
        let lp = local_instances(p, m);
        let l = local_instances(cs, m);
        if lp.contains(t) {
            let k = choose|k: int| 0 <= k < lp.len() && lp[k] == t;
            match scope_of(cs.last(), m) {
                Some(u) => if !lp.contains(u) {
                    assert(lp.push(u)[k] == t);
                },
                None => {},
            }
            assert(l.contains(t)) by {
                assert(l[k] == t);
            }
        } else {
            if scope_of(cs.last(), m) == Some(t) {
                assert(l == lp.push(t));
                assert(l[lp.len() as int] == t);
            } else {
                assert(!l.contains(t)) by {
                    if l.contains(t) {
                        let k = choose|k: int| 0 <= k < l.len() && l[k] == t;
                        match scope_of(cs.last(), m) {
                            Some(u) => if !lp.contains(u) {
                                if k < lp.len() {
                                    assert(lp.push(u)[k] == lp[k]);
                                }
                            },
                            None => {},
                        }
                        assert(k < lp.len());
                        assert(lp[k] == t);
                    }
                }
            }
        }
    }
}

/// Partition constraints into local (per-template) and global sets.
///
/// Every constraint lands in exactly one place: the list of its template
/// instance when it is local, the global list otherwise; order is kept.
pub fn partition_constraints(constraints: &[LayoutConstraint], element_to_template: &NameMap<String>) -> (r: (
    NameMap<Vec<LayoutConstraint>>,
    Vec<LayoutConstraint>,
))
    requires
        element_to_template.wf(),
    ensures
        r.0.wf(),
        r.0.keys() == local_instances(constraints@, *element_to_template),
        forall|j: int|
            0 <= j < r.0.entries().len() ==> (#[trigger] r.0.entries()[j]).1@ == local_part(
                constraints@,
                *element_to_template,
                r.0.entries()[j].0@,
            ),
        r.1@ == global_part(constraints@, *element_to_template),
{
    let ghost m = *element_to_template;
    let mut local_by_instance: NameMap<Vec<LayoutConstraint>> = NameMap::new();
    let mut global: Vec<LayoutConstraint> = Vec::new();
    let mut i: usize = 0;
    assert(local_by_instance.keys() =~= Seq::<Seq<char>>::empty());
    while i < constraints.len()
        invariant
            i <= constraints@.len(),
            m == *element_to_template,
            m.wf(),
            local_by_instance.wf(),
            local_by_instance.keys() == local_instances(constraints@.take(i as int), m),
            forall|j: int|
                0 <= j < local_by_instance.entries().len() ==> (#[trigger] local_by_instance.entries()[j]).1@
                    == local_part(constraints@.take(i as int), m, local_by_instance.entries()[j].0@),
            global@ == global_part(constraints@.take(i as int), m),
        decreases constraints@.len() - i,
    {
        let ghost pre = constraints@.take(i as int);
        let ghost post = constraints@.take(i + 1);
        let ghost c = constraints@[i as int];
        assert(post.drop_last() =~= pre);
        assert(post.last() == c);
        let ghost old_map = local_by_instance;
        match classify_constraint(&constraints[i], element_to_template) {
            ConstraintScope::Local(instance) => {
                let ghost t = instance@;
                proof {
                    old_map.lemma_index_of_spec_contains(t);
                }
                local_by_instance.push_to(instance.as_str(), constraints[i].clone());
                proof {
                    assert(local_by_instance.keys() =~= local_instances(post, m));
                    assert forall|j: int| 0 <= j < local_by_instance.entries().len() implies (
                    #[trigger] local_by_instance.entries()[j]).1@ == local_part(
                        post,
                        m,
                        local_by_instance.entries()[j].0@,
                    ) by {
                        let kj = local_by_instance.entries()[j].0@;
                        assert(local_by_instance.keys()[j] == kj);
                        if j < old_map.entries().len() {
                            assert(old_map.keys()[j] == kj);
                            assert(old_map.entries()[j].0@ == kj);
                            assert(old_map.entries()[j].1@ == local_part(pre, m, kj));
                        }
                        if kj == t {
                            if j >= old_map.entries().len() {
                                assert(!old_map.keys().contains(t)) by {
                                    if old_map.keys().contains(t) {
                                        let q = choose|q: int| 0 <= q < old_map.keys().len() && old_map.keys()[q] == t;
                                        assert(old_map.entries()[q].0@ == t);
                                    }
                                }
                                lemma_local_part_absent(pre, m, t);
                            }
                        }
                    }
                }
            },
            ConstraintScope::Global => {
                global.push(constraints[i].clone());
            },
        }
        i = i + 1;
    }
    assert(constraints@.take(constraints@.len() as int) =~= constraints@);
    (local_by_instance, global)
}

// ---------------------------------------------------------------------------
// Which template instance each element belongs to
// ---------------------------------------------------------------------------

/// Position of the first underscore.
pub open spec fn underscore_pos(s: Seq<char>) -> Option<nat>
    decreases s.len(),
{
    if s.len() == 0 {
        None
    } else if s[0] == '_' {
        Some(0)
    } else {
        match underscore_pos(s.subrange(1, s.len() as int)) {
            Some(p) => Some(p + 1),
            None => None,
        }
    }
}

/// The template prefix of an element id: the text before its first
/// underscore (`alice_head` has prefix `alice`).
pub open spec fn template_prefix(id: Seq<char>) -> Option<Seq<char>> {
    match underscore_pos(id) {
        Some(p) => Some(id.take(p as int)),
        None => None,
    }
}

/// The name of a statement, if it has one.
pub open spec fn statement_id(s: Statement) -> Option<Seq<char>> {
    match s {
        Statement::Shape(sh) => match sh.name {
            Some(n) => Some(n.node.0@),
            None => match sh.shape_type.node {
                ShapeType::Path(p) => match p.name {
                    Some(n) => Some(n.node.0@),
                    None => None,
                },
                _ => None,
            },
        },
        Statement::Group(g) => match g.name {
            Some(n) => Some(n.node.0@),
            None => None,
        },
        Statement::Layout(l) => match l.name {
            Some(n) => Some(n.node.0@),
            None => None,
        },
        _ => None,
    }
}

/// `id` is `name`, an underscore, then the rest (`alice_head`
/// for `alice`).
pub open spec fn is_prefixed_by(id: Seq<char>, name: Seq<char>) -> bool {
    id.len() > name.len() && id.take(name.len() as int) == name && id[name.len() as int] == '_'
}

/// Some child is named with the prefix `name_`.
pub open spec fn has_prefixed_child(children: Seq<Spanned<Statement>>, name: Seq<char>) -> bool {
    exists|i: int|
        0 <= i < children.len() && (#[trigger] statement_id(children[i].node)) is Some
            && is_prefixed_by(statement_id(children[i].node).unwrap(), name)
}

/// The mapping an element contributes, given the enclosing template.
pub open spec fn element_events(id: Seq<char>, ctx: Option<Seq<char>>) -> Seq<(Seq<char>, Seq<char>)> {
    match ctx {
        Some(t) => seq![(id, t)],
        None => match template_prefix(id) {
            Some(p) => seq![(id, p)],
            None => Seq::empty(),
        },
    }
}

/// The template a group's children belong to.
pub open spec fn group_context(g: GroupDecl, ctx: Option<Seq<char>>) -> Option<Seq<char>> {
    match g.name {
        Some(n) => if has_prefixed_child(g.children@, n.node.0@) {
            Some(n.node.0@)
        } else {
            ctx
        },
        None => ctx,
    }
}

/// The mapping a group itself records: its name, when it sits inside a template.
pub open spec fn group_head(g: GroupDecl, ctx: Option<Seq<char>>) -> Seq<(Seq<char>, Seq<char>)> {
    match (g.name, ctx) {
        (Some(n), Some(t)) => seq![(n.node.0@, t)],
        _ => Seq::empty(),
    }
}

/// The (element, template) mappings a statement records, in order.
pub open spec fn stmt_template_events(s: Statement, ctx: Option<Seq<char>>) -> Seq<
    (Seq<char>, Seq<char>),
>
    decreases s,
{
    match s {
        Statement::Shape(_) => match statement_id(s) {
            Some(id) => element_events(id, ctx),
            None => Seq::empty(),
        },
        Statement::Group(g) => group_head(g, ctx) + stmts_template_events(
            g.children@,
            group_context(g, ctx),
        ),
        Statement::Layout(l) => stmts_template_events(l.children@, ctx),
        Statement::Label(inner) => stmt_template_events(*inner, ctx),
        _ => Seq::empty(),
    }
}

/// The mappings a list of statements records, in order.
pub open spec fn stmts_template_events(ss: Seq<Spanned<Statement>>, ctx: Option<Seq<char>>) -> Seq<
    (Seq<char>, Seq<char>),
>
    decreases ss,
{
    if ss.len() == 0 {
        Seq::empty()
    } else {
        stmts_template_events(ss.subrange(0, ss.len() - 1), ctx) + stmt_template_events(
            ss[ss.len() - 1].node,
            ctx,
        )
    }
}

/// A map after recording `evs` in order (a later mapping replaces an earlier).
pub open spec fn apply_events(m: Map<Seq<char>, Seq<char>>, evs: Seq<(Seq<char>, Seq<char>)>) -> Map<
    Seq<char>,
    Seq<char>,
>
    decreases evs.len(),
{
    if evs.len() == 0 {
        m
    } else {
        apply_events(m, evs.drop_last()).insert(evs.last().0, evs.last().1)
    }
}

proof fn lemma_apply_events_concat(
    m: Map<Seq<char>, Seq<char>>,
    a: Seq<(Seq<char>, Seq<char>)>,
    b: Seq<(Seq<char>, Seq<char>)>,
)
    ensures
        apply_events(m, a + b) == apply_events(apply_events(m, a), b),
    decreases b.len(),
{
    if b.len() == 0 {
        assert(a + b =~= a);
    } else {
        assert((a + b).drop_last() =~= a + b.drop_last());
        assert((a + b).last() == b.last());
        lemma_apply_events_concat(m, a, b.drop_last());
    }
}

/// The text map a name map of strings holds.
pub open spec fn text_map(m: NameMap<String>) -> Map<Seq<char>, Seq<char>> {
    Map::new(|k: Seq<char>| m.lookup(k) is Some, |k: Seq<char>| m.lookup(k).unwrap()@)
}

/// Records one mapping.
fn record(map: &mut NameMap<String>, id: &str, t: &str)
    requires
        old(map).wf(),
    ensures
        final(map).wf(),
        text_map(*final(map)) == text_map(*old(map)).insert(id@, t@),
{
    map.insert(String::from_str(id), String::from_str(t));
    assert(text_map(*map) =~= text_map(*old(map)).insert(id@, t@));
}

/// The text before the first underscore of `elem_id`, if it has one.
fn extract_template_prefix(elem_id: &str) -> (r: Option<String>)
    ensures
        match r {
            Some(p) => template_prefix(elem_id@) == Some(p@),
            None => template_prefix(elem_id@) is None,
        },
{
    let cs = chars_of(elem_id);
    let mut i: usize = 0;
    while i < cs.len()
        invariant
            i <= cs@.len(),
            cs@ == elem_id@,
            forall|k: int| 0 <= k < i ==> cs@[k] != '_',
        decreases cs@.len() - i,
    {
        if cs[i] == '_' {
            proof {
                lemma_underscore_pos(cs@, i as nat);
            }
            return Some(crate::strings::string_of_range(cs.as_slice(), 0, i));
        }
        i = i + 1;
    }
    proof {
        lemma_underscore_pos_none(cs@);
    }
    None
}

proof fn lemma_underscore_pos(s: Seq<char>, i: nat)
    requires
        i < s.len(),
        s[i as int] == '_',
        forall|k: int| 0 <= k < i ==> s[k] != '_',
    ensures
        underscore_pos(s) == Some(i),
    decreases i,
{
    if i > 0 {
        lemma_underscore_pos(s.subrange(1, s.len() as int), (i - 1) as nat);
    }
}

proof fn lemma_underscore_pos_none(s: Seq<char>)
    requires
        forall|k: int| 0 <= k < s.len() ==> s[k] != '_',
    ensures
        underscore_pos(s) is None,
    decreases s.len(),
{
    if s.len() > 0 {
        lemma_underscore_pos_none(s.subrange(1, s.len() as int));
    }
}

/// Get the ID (name) of a statement, if it has one.
fn get_statement_id(stmt: &Statement) -> (r: Option<&str>)
    ensures
        match r {
            Some(id) => statement_id(*stmt) == Some(id@),
            None => statement_id(*stmt) is None,
        },
{
    match stmt {
        Statement::Shape(s) => match &s.name {
            Some(n) => Some(n.node.0.as_str()),
            None => match &s.shape_type.node {
                ShapeType::Path(p) => match &p.name {
                    Some(n) => Some(n.node.0.as_str()),
                    None => None,
                },
                _ => None,
            },
        },
        Statement::Group(g) => match &g.name {
            Some(n) => Some(n.node.0.as_str()),
            None => None,
        },
        Statement::Layout(l) => match &l.name {
            Some(n) => Some(n.node.0.as_str()),
            None => None,
        },
        _ => None,
    }
}

fn is_prefixed_by_exec(id: &str, name: &str) -> (r: bool)
    ensures
        r == is_prefixed_by(id@, name@),
{
    let ic = chars_of(id);
    let nc = chars_of(name);
    if ic.len() <= nc.len() {
        return false;
    }
    if !crate::strings::chars_occur_at(ic.as_slice(), nc.as_slice(), 0) {
        assert(!(ic@.take(nc@.len() as int) == nc@)) by {
            if ic@.take(nc@.len() as int) == nc@ {
                assert(ic@.subrange(0, nc@.len() as int) == nc@);
            }
        }
        return false;
    }
    assert(ic@.take(nc@.len() as int) =~= ic@.subrange(0, nc@.len() as int));
    ic[nc.len()] == '_'
}

fn has_prefixed_children(children: &Vec<Spanned<Statement>>, name: &str) -> (r: bool)
    ensures
        r == has_prefixed_child(children@, name@),
{
    let mut i: usize = 0;
    while i < children.len()
        invariant
            i <= children@.len(),
            forall|k: int|
                0 <= k < i ==> !((#[trigger] statement_id(children@[k].node)) is Some
                    && is_prefixed_by(statement_id(children@[k].node).unwrap(), name@)),
        decreases children@.len() - i,
    {
        if let Some(child_id) = get_statement_id(&children[i].node) {
            if is_prefixed_by_exec(child_id, name) {
                return true;
            }
        }
        i = i + 1;
    }
    false
}

fn add_element_to_map(elem_id: &str, map: &mut NameMap<String>, current_template: Option<&str>)
    requires
        old(map).wf(),
    ensures
        final(map).wf(),
        text_map(*final(map)) == apply_events(
            text_map(*old(map)),
            element_events(elem_id@, match current_template {
                Some(t) => Some(t@),
                None => None,
            }),
        ),
{
    assert(apply_events(text_map(*old(map)), Seq::<(Seq<char>, Seq<char>)>::empty()) == text_map(*old(map)));
    match current_template {
        Some(template) => {
            record(map, elem_id, template);
            assert(seq![(elem_id@, template@)].drop_last() =~= Seq::<(Seq<char>, Seq<char>)>::empty());
        },
        None => {
            match extract_template_prefix(elem_id) {
                Some(prefix) => {
                    record(map, elem_id, prefix.as_str());
                    assert(seq![(elem_id@, prefix@)].drop_last() =~= Seq::<(Seq<char>, Seq<char>)>::empty());
                },
                None => {},
            }
        },
    }
}

/// The view of an optional template name.
pub open spec fn ctx_view(c: Option<&str>) -> Option<Seq<char>> {
    match c {
        Some(t) => Some(t@),
        None => None,
    }
}

fn collect_element_template_mapping(stmt: &Statement, map: &mut NameMap<String>, current_template: Option<&str>)
    requires
        old(map).wf(),
    ensures
        final(map).wf(),
        text_map(*final(map)) == apply_events(
            text_map(*old(map)),
            stmt_template_events(*stmt, ctx_view(current_template)),
        ),
    decreases stmt, 1nat,
{
    let ghost ctx = ctx_view(current_template);
    match stmt {
        Statement::Shape(_) => {
            match get_statement_id(stmt) {
                Some(elem_id) => {
                    add_element_to_map(elem_id, map, current_template);
                },
                None => {},
            }
            assert(text_map(*map) == apply_events(text_map(*old(map)), stmt_template_events(*stmt, ctx)));
        },
        Statement::Group(g) => {
            let group_name: Option<&str> = match &g.name {
                Some(n) => Some(n.node.0.as_str()),
                None => None,
            };
            let template_context: Option<&str> = match group_name {
                Some(name) => if has_prefixed_children(&g.children, name) {
                    Some(name)
                } else {
                    current_template
                },
                None => current_template,
            };
            assert(ctx_view(template_context) == group_context(*g, ctx));
            let ghost head = group_head(*g, ctx);
            assert(apply_events(text_map(*old(map)), Seq::<(Seq<char>, Seq<char>)>::empty()) == text_map(*old(map)));
            if let Some(name) = group_name {
                if let Some(template) = current_template {
                    record(map, name, template);
                    assert(head.drop_last() =~= Seq::<(Seq<char>, Seq<char>)>::empty());
                }
            }
            assert(text_map(*map) == apply_events(text_map(*old(map)), head));
            let ghost mid = text_map(*map);
            collect_mapping_in_statements(&g.children, map, template_context);
            proof {
                lemma_apply_events_concat(
                    text_map(*old(map)),
                    head,
                    stmts_template_events(g.children@, group_context(*g, ctx)),
                );
            }
            assert(text_map(*map) == apply_events(text_map(*old(map)), stmt_template_events(*stmt, ctx)));
        },
        Statement::Layout(l) => {
            collect_mapping_in_statements(&l.children, map, current_template);
            assert(text_map(*map) == apply_events(text_map(*old(map)), stmt_template_events(*stmt, ctx)));
        },
        Statement::Label(inner) => {
            collect_element_template_mapping(inner, map, current_template);
            assert(text_map(*map) == apply_events(text_map(*old(map)), stmt_template_events(*stmt, ctx)));
        },
        _ => {
            assert(stmt_template_events(*stmt, ctx) =~= Seq::<(Seq<char>, Seq<char>)>::empty());
        },
    }
}

fn collect_mapping_in_statements(
    stmts: &Vec<Spanned<Statement>>,
    map: &mut NameMap<String>,
    current_template: Option<&str>,
)
    requires
        old(map).wf(),
    ensures
        final(map).wf(),
        text_map(*final(map)) == apply_events(
            text_map(*old(map)),
            stmts_template_events(stmts@, ctx_view(current_template)),
        ),
    decreases stmts, 0nat,
{
    let ghost ctx = ctx_view(current_template);
    let mut i: usize = 0;
    while i < stmts.len()
        invariant
            i <= stmts@.len(),
            map.wf(),
            ctx == ctx_view(current_template),
            text_map(*map) == apply_events(
                text_map(*old(map)),
                stmts_template_events(stmts@.subrange(0, i as int), ctx),
            ),
        decreases stmts@.len() - i,
    {
        proof {
            let sub = stmts@.subrange(0, i + 1);
            assert(sub.subrange(0, sub.len() - 1) =~= stmts@.subrange(0, i as int));
            assert(sub[sub.len() - 1] == stmts@[i as int]);
            lemma_apply_events_concat(
                text_map(*old(map)),
                stmts_template_events(stmts@.subrange(0, i as int), ctx),
                stmt_template_events(stmts@[i as int].node, ctx),
            );
        }
        assert(decreases_to!(stmts => stmts@[i as int].node));
        collect_element_template_mapping(&stmts[i].node, map, current_template);
        i = i + 1;
    }
    assert(stmts@.subrange(0, stmts@.len() as int) =~= stmts@);
}

/// Build a map from element ID to template instance name.
///
/// Elements inside a group whose children are named `{group}_{child}` belong
/// to that group's instance; elsewhere an element named `{prefix}_{rest}`
/// belongs to `prefix`. A later mapping of the same element replaces an
/// earlier one.
pub fn build_element_to_template_map(doc: &Document) -> (r: NameMap<String>)
    ensures
        r.wf(),
        text_map(r) == apply_events(Map::empty(), stmts_template_events(doc.statements@, None)),
{
    let mut map: NameMap<String> = NameMap::new();
    assert(text_map(map) =~= Map::<Seq<char>, Seq<char>>::empty());
    collect_mapping_in_statements(&doc.statements, &mut map, None);
    map
}

// ---------------------------------------------------------------------------
// Constraints contributed by layouts, shapes and constrain statements
// ---------------------------------------------------------------------------

/// Collect only `constrain` statements (not intrinsics or layout constraints).
fn collect_constrain_statements(stmts: &Vec<Spanned<Statement>>, collector: &mut ConstraintCollector)
    ensures
        final(collector).config == old(collector).config,
        constraint_views(final(collector).constraints@) == constraint_views(old(collector).constraints@)
            + stmts_user_views(stmts@),
    decreases stmts,
{
    let mut i: usize = 0;
    while i < stmts.len()
        invariant
            i <= stmts@.len(),
            collector.config == old(collector).config,
            constraint_views(collector.constraints@) == constraint_views(old(collector).constraints@)
                + stmts_user_views(stmts@.subrange(0, i as int)),
        decreases stmts@.len() - i,
    {
        let stmt = &stmts[i];
        let ghost before = constraint_views(collector.constraints@);
        proof {
            let sub = stmts@.subrange(0, i + 1);
            assert(sub.subrange(0, sub.len() - 1) =~= stmts@.subrange(0, i as int));
            assert(sub[sub.len() - 1] == stmts@[i as int]);
        }
        assert(decreases_to!(stmts => stmts@[i as int].node));
        match &stmt.node {
            Statement::Constrain(c) => {
                collector.collect_constrain_expr(&c.expr, &stmt.span);
            },
            Statement::Layout(l) => {
                collect_constrain_statements(&l.children, collector);
            },
            Statement::Group(g) => {
                collect_constrain_statements(&g.children, collector);
            },
            _ => {
                assert(super::collector::stmt_user_views(*stmt) =~= Seq::<ConstraintView>::empty());
            },
        }
        assert(constraint_views(collector.constraints@) =~= before
            + super::collector::stmt_user_views(stmts@[i as int]));
        i = i + 1;
    }
    assert(stmts@.subrange(0, stmts@.len() as int) =~= stmts@);
}

/// Names of the shapes, layouts and groups directly inside a layout, in order.
pub open spec fn aligned_child_ids(children: Seq<Spanned<Statement>>) -> Seq<Seq<char>>
    decreases children.len(),
{
    if children.len() == 0 {
        Seq::empty()
    } else {
        aligned_child_ids(children.drop_last()) + match children.last().node {
            Statement::Shape(s) => super::opt_name(s.name),
            Statement::Layout(l) => super::opt_name(l.name),
            Statement::Group(g) => super::opt_name(g.name),
            _ => Seq::empty(),
        }
    }
}

/// The default gap between aligned children.
pub open spec fn default_alignment_gap() -> Num {
    Num { milli: 20000 }
}

/// The gap an aligned layout uses.
pub open spec fn alignment_gap(l: LayoutDecl) -> Num {
    match number_modifier(l.modifiers@, "gap"@) {
        Some(g) => g,
        None => default_alignment_gap(),
    }
}

/// The alignment constraints for child `i` (`i >= 1`) of a layout.
pub open spec fn align_pair(t: LayoutType, ids: Seq<Seq<char>>, i: int, gap: Num, span: Span) -> Seq<
    ConstraintView,
> {
    let c = ids[i];
    let first = ids[0];
    let prev = ids[i - 1];
    match t {
        LayoutType::Row => seq![
            (ConstraintKind::Equal, seq![(c, LayoutProperty::Y), (first, LayoutProperty::Y)], zero(),
            layout_source(span, "row alignment: "@ + c + ".y = "@ + first + ".y"@)),
            (ConstraintKind::Equal, seq![(c, LayoutProperty::X), (prev, LayoutProperty::Right)], gap,
            layout_source(span, "row spacing: "@ + c + ".x = "@ + prev + ".right + "@ + num_text(gap))),
        ],
        LayoutType::Column => seq![
            (ConstraintKind::Equal, seq![(c, LayoutProperty::X), (first, LayoutProperty::X)], zero(),
            layout_source(span, "col alignment: "@ + c + ".x = "@ + first + ".x"@)),
            (ConstraintKind::Equal, seq![(c, LayoutProperty::Y), (prev, LayoutProperty::Bottom)], gap,
            layout_source(span, "col spacing: "@ + c + ".y = "@ + prev + ".bottom + "@ + num_text(gap))),
        ],
        LayoutType::Stack => seq![
            (ConstraintKind::Equal, seq![(c, LayoutProperty::X), (first, LayoutProperty::X)], zero(),
            layout_source(span, "stack alignment: "@ + c + ".x = "@ + first + ".x"@)),
            (ConstraintKind::Equal, seq![(c, LayoutProperty::Y), (first, LayoutProperty::Y)], zero(),
            layout_source(span, "stack alignment: "@ + c + ".y = "@ + first + ".y"@)),
        ],
        LayoutType::Grid => Seq::empty(),
    }
}

/// Alignment constraints for children `1..k` of a layout.
pub open spec fn align_upto(t: LayoutType, ids: Seq<Seq<char>>, gap: Num, span: Span, k: nat) -> Seq<
    ConstraintView,
>
    decreases k,
{
    if k <= 1 {
        Seq::empty()
    } else {
        align_upto(t, ids, gap, span, (k - 1) as nat) + align_pair(t, ids, k - 1, gap, span)
    }
}

/// Alignment constraints of a statement.
pub open spec fn stmt_align_views(s: Spanned<Statement>) -> Seq<ConstraintView>
    decreases s,
{
    match s.node {
        Statement::Layout(l) => {
            let ids = aligned_child_ids(l.children@);
            align_upto(l.layout_type.node, ids, alignment_gap(l), s.span, ids.len()) + stmts_align_views(
                l.children@,
            )
        },
        Statement::Group(g) => stmts_align_views(g.children@),
        _ => Seq::empty(),
    }
}

/// Alignment constraints of a list of statements.
pub open spec fn stmts_align_views(ss: Seq<Spanned<Statement>>) -> Seq<ConstraintView>
    decreases ss,
{
    if ss.len() == 0 {
        Seq::empty()
    } else {
        stmts_align_views(ss.subrange(0, ss.len() - 1)) + stmt_align_views(ss[ss.len() - 1])
    }
}

fn aligned_children(children: &Vec<Spanned<Statement>>) -> (r: Vec<String>)
    ensures
        views(r@) == aligned_child_ids(children@),
{
    let mut ids: Vec<String> = Vec::new();
    let mut i: usize = 0;
    while i < children.len()
        invariant
            i <= children@.len(),
            views(ids@) == aligned_child_ids(children@.take(i as int)),
        decreases children@.len() - i,
    {
        assert(children@.take(i + 1).drop_last() =~= children@.take(i as int));
        assert(children@.take(i + 1).last() == children@[i as int]);
        let n: Option<&Spanned<Identifier>> = match &children[i].node {
            Statement::Shape(s) => s.name.as_ref(),
            Statement::Layout(l) => l.name.as_ref(),
            Statement::Group(g) => g.name.as_ref(),
            _ => None,
        };
        match n {
            Some(x) => {
                ids.push(x.node.0.clone());
            },
            None => {},
        }
        assert(views(ids@) =~= aligned_child_ids(children@.take(i + 1)));
        i = i + 1;
    }
    assert(children@.take(children@.len() as int) =~= children@);
    ids
}

/// Text of four parts.
fn cat4(a: &str, b: &str, c: &str, d: &str) -> (r: String)
    ensures
        r@ == a@ + b@ + c@ + d@,
{
    let mut s = String::from_str(a);
    s.append(b);
    s.append(c);
    s.append(d);
    s
}

fn push_constraint(collector: &mut ConstraintCollector, c: LayoutConstraint)
    ensures
        final(collector).config == old(collector).config,
        constraint_views(final(collector).constraints@) == constraint_views(old(collector).constraints@).push(c@),
{
    collector.constraints.push(c);
    assert(constraint_views(collector.constraints@) =~= constraint_views(old(collector).constraints@).push(c@));
}

fn container_source(span: Span, description: String) -> (r: ConstraintSource)
    ensures
        r@ == layout_source(span, description@),
{
    ConstraintSource { span, description, origin: ConstraintOrigin::LayoutContainer, template_instance: None }
}

fn add_align_pair(
    collector: &mut ConstraintCollector,
    t: LayoutType,
    ids: &Vec<String>,
    i: usize,
    gap: Num,
    span: Span,
)
    requires
        1 <= i < ids@.len(),
    ensures
        final(collector).config == old(collector).config,
        constraint_views(final(collector).constraints@) == constraint_views(old(collector).constraints@)
            + align_pair(t, views(ids@), i as int, gap, span),
{
    let ghost v = views(ids@);
    let c = ids[i].as_str();
    let first = ids[0].as_str();
    let prev = ids[i - 1].as_str();
    match t {
        LayoutType::Row => {
            let mut d1 = cat4("row alignment: ", c, ".y = ", first);
            d1.append(".y");
            push_constraint(collector, LayoutConstraint::Equal {
                left: LayoutVariable::y(c),
                right: LayoutVariable::y(first),
                offset: Num { milli: 0 },
                source: container_source(span, d1),
            });
            let mut d2 = cat4("row spacing: ", c, ".x = ", prev);
            d2.append(".right + ");
            gap.push_text(&mut d2);
            push_constraint(collector, LayoutConstraint::Equal {
                left: LayoutVariable::x(c),
                right: LayoutVariable::new(prev, LayoutProperty::Right),
                offset: gap,
                source: container_source(span, d2),
            });
        },
        LayoutType::Column => {
            let mut d1 = cat4("col alignment: ", c, ".x = ", first);
            d1.append(".x");
            push_constraint(collector, LayoutConstraint::Equal {
                left: LayoutVariable::x(c),
                right: LayoutVariable::x(first),
                offset: Num { milli: 0 },
                source: container_source(span, d1),
            });
            let mut d2 = cat4("col spacing: ", c, ".y = ", prev);
            d2.append(".bottom + ");
            gap.push_text(&mut d2);
            push_constraint(collector, LayoutConstraint::Equal {
                left: LayoutVariable::y(c),
                right: LayoutVariable::new(prev, LayoutProperty::Bottom),
                offset: gap,
                source: container_source(span, d2),
            });
        },
        LayoutType::Stack => {
            let mut d1 = cat4("stack alignment: ", c, ".x = ", first);
            d1.append(".x");
            push_constraint(collector, LayoutConstraint::Equal {
                left: LayoutVariable::x(c),
                right: LayoutVariable::x(first),
                offset: Num { milli: 0 },
                source: container_source(span, d1),
            });
            let mut d2 = cat4("stack alignment: ", c, ".y = ", first);
            d2.append(".y");
            push_constraint(collector, LayoutConstraint::Equal {
                left: LayoutVariable::y(c),
                right: LayoutVariable::y(first),
                offset: Num { milli: 0 },
                source: container_source(span, d2),
            });
        },
        LayoutType::Grid => {},
    }
    assert(constraint_views(collector.constraints@) =~= constraint_views(old(collector).constraints@)
        + align_pair(t, v, i as int, gap, span));
}

fn collect_alignment_statement(stmt: &Spanned<Statement>, collector: &mut ConstraintCollector)
    ensures
        final(collector).config == old(collector).config,
        constraint_views(final(collector).constraints@) == constraint_views(old(collector).constraints@)
            + stmt_align_views(*stmt),
    decreases stmt, 1nat,
{
    match &stmt.node {
        Statement::Layout(l) => {
            let child_ids = aligned_children(&l.children);
            let ghost v = views(child_ids@);
            let gap = match extract_number_modifier(l.modifiers.as_slice(), "gap") {
                Some(g) => g,
                None => Num { milli: 20000 },
            };
            let ghost start = constraint_views(collector.constraints@);
            let t = l.layout_type.node;
            if child_ids.len() > 1 {
                let mut i: usize = 1;
                while i < child_ids.len()
                    invariant
                        1 <= i <= child_ids@.len(),
                        v == views(child_ids@),
                        collector.config == old(collector).config,
                        constraint_views(collector.constraints@) == start + align_upto(t, v, gap, stmt.span, i as nat),
                    decreases child_ids@.len() - i,
                {
                    add_align_pair(collector, t, &child_ids, i, gap, stmt.span);
                    assert(start + align_upto(t, v, gap, stmt.span, (i + 1) as nat) =~= start + align_upto(
                        t,
                        v,
                        gap,
                        stmt.span,
                        i as nat,
                    ) + align_pair(t, v, i as int, gap, stmt.span));
                    i = i + 1;
                }
            } else {
                assert(align_upto(t, v, gap, stmt.span, v.len()) =~= Seq::<ConstraintView>::empty());
                assert(constraint_views(collector.constraints@) =~= start + align_upto(t, v, gap, stmt.span, v.len()));
            }
            let ghost mid = constraint_views(collector.constraints@);
            collect_layout_alignment_constraints(&l.children, collector);
            assert(constraint_views(collector.constraints@) =~= constraint_views(old(collector).constraints@)
                + stmt_align_views(*stmt));
        },
        Statement::Group(g) => {
            collect_layout_alignment_constraints(&g.children, collector);
        },
        _ => {
            assert(stmt_align_views(*stmt) =~= Seq::<ConstraintView>::empty());
            assert(constraint_views(collector.constraints@) =~= constraint_views(old(collector).constraints@)
                + stmt_align_views(*stmt));
        },
    }
}

/// Collect only alignment constraints from row/col/stack layouts: siblings
/// in a row share y and follow each other by the gap (default 20); in a col
/// they share x; in a stack they share both.
fn collect_layout_alignment_constraints(stmts: &Vec<Spanned<Statement>>, collector: &mut ConstraintCollector)
    ensures
        final(collector).config == old(collector).config,
        constraint_views(final(collector).constraints@) == constraint_views(old(collector).constraints@)
            + stmts_align_views(stmts@),
    decreases stmts, 0nat,
{
    let mut i: usize = 0;
    while i < stmts.len()
        invariant
            i <= stmts@.len(),
            collector.config == old(collector).config,
            constraint_views(collector.constraints@) == constraint_views(old(collector).constraints@)
                + stmts_align_views(stmts@.subrange(0, i as int)),
        decreases stmts@.len() - i,
    {
        let ghost before = constraint_views(collector.constraints@);
        proof {
            let sub = stmts@.subrange(0, i + 1);
            assert(sub.subrange(0, sub.len() - 1) =~= stmts@.subrange(0, i as int));
            assert(sub[sub.len() - 1] == stmts@[i as int]);
        }
        assert(decreases_to!(stmts => stmts@[i as int]));
        collect_alignment_statement(&stmts[i], collector);
        assert(constraint_views(collector.constraints@) =~= before + stmt_align_views(stmts@[i as int]));
        i = i + 1;
    }
    assert(stmts@.subrange(0, stmts@.len() as int) =~= stmts@);
}

/// Position constraints a shape's `x`/`y` modifiers state.
pub open spec fn position_views(id: Seq<char>, mods: Seq<Spanned<StyleModifier>>) -> Seq<ConstraintView>
    decreases mods.len(),
{
    if mods.len() == 0 {
        Seq::empty()
    } else {
        let m = mods.last();
        position_views(id, mods.drop_last()) + match (m.node.key.node, m.node.value.node) {
            (StyleKey::X, StyleValue::Number { value, .. }) => seq![
                (ConstraintKind::Fixed, seq![(id, LayoutProperty::X)], value, (
                    m.span,
                    id + ".x = "@ + num_text(value),
                    ConstraintOrigin::UserDefined,
                    None::<Seq<char>>,
                )),
            ],
            (StyleKey::Y, StyleValue::Number { value, .. }) => seq![
                (ConstraintKind::Fixed, seq![(id, LayoutProperty::Y)], value, (
                    m.span,
                    id + ".y = "@ + num_text(value),
                    ConstraintOrigin::UserDefined,
                    None::<Seq<char>>,
                )),
            ],
            _ => Seq::empty(),
        }
    }
}

/// Position constraints of a statement.
pub open spec fn stmt_position_views(s: Statement) -> Seq<ConstraintView>
    decreases s,
{
    match s {
        Statement::Shape(sh) => match sh.name {
            Some(n) => position_views(n.node.0@, sh.modifiers@),
            None => Seq::empty(),
        },
        Statement::Layout(l) => stmts_position_views(l.children@),
        Statement::Group(g) => stmts_position_views(g.children@),
        _ => Seq::empty(),
    }
}

/// Position constraints of a list of statements.
pub open spec fn stmts_position_views(ss: Seq<Spanned<Statement>>) -> Seq<ConstraintView>
    decreases ss,
{
    if ss.len() == 0 {
        Seq::empty()
    } else {
        stmts_position_views(ss.subrange(0, ss.len() - 1)) + stmt_position_views(ss[ss.len() - 1].node)
    }
}

fn collect_shape_position(id: &String, mods: &Vec<Spanned<StyleModifier>>, collector: &mut ConstraintCollector)
    ensures
        final(collector).config == old(collector).config,
        constraint_views(final(collector).constraints@) == constraint_views(old(collector).constraints@)
            + position_views(id@, mods@),
{
    let mut i: usize = 0;
    while i < mods.len()
        invariant
            i <= mods@.len(),
            collector.config == old(collector).config,
            constraint_views(collector.constraints@) == constraint_views(old(collector).constraints@)
                + position_views(id@, mods@.take(i as int)),
        decreases mods@.len() - i,
    {
        let ghost before = constraint_views(collector.constraints@);
        assert(mods@.take(i + 1).drop_last() =~= mods@.take(i as int));
        assert(mods@.take(i + 1).last() == mods@[i as int]);
        let modifier = &mods[i];
        match (&modifier.node.key.node, &modifier.node.value.node) {
            (StyleKey::X, StyleValue::Number { value, .. }) => {
                let mut d = String::from_str(id.as_str());
                d.append(".x = ");
                value.push_text(&mut d);
                push_constraint(collector, LayoutConstraint::Fixed {
                    variable: LayoutVariable::x(id.as_str()),
                    value: *value,
                    source: ConstraintSource {
                        span: modifier.span,
                        description: d,
                        origin: ConstraintOrigin::UserDefined,
                        template_instance: None,
                    },
                });
            },
            (StyleKey::Y, StyleValue::Number { value, .. }) => {
                let mut d = String::from_str(id.as_str());
                d.append(".y = ");
                value.push_text(&mut d);
                push_constraint(collector, LayoutConstraint::Fixed {
                    variable: LayoutVariable::y(id.as_str()),
                    value: *value,
                    source: ConstraintSource {
                        span: modifier.span,
                        description: d,
                        origin: ConstraintOrigin::UserDefined,
                        template_instance: None,
                    },
                });
            },
            _ => {},
        }
        assert(constraint_views(collector.constraints@) =~= constraint_views(old(collector).constraints@)
            + position_views(id@, mods@.take(i + 1)));
        i = i + 1;
    }
    assert(mods@.take(mods@.len() as int) =~= mods@);
}

fn collect_position_statement(stmt: &Statement, collector: &mut ConstraintCollector)
    ensures
        final(collector).config == old(collector).config,
        constraint_views(final(collector).constraints@) == constraint_views(old(collector).constraints@)
            + stmt_position_views(*stmt),
    decreases stmt, 1nat,
{
    match stmt {
        Statement::Shape(s) => {
            if let Some(name) = &s.name {
                collect_shape_position(&name.node.0, &s.modifiers, collector);
            } else {
                assert(constraint_views(collector.constraints@) =~= constraint_views(old(collector).constraints@)
                    + stmt_position_views(*stmt));
            }
        },
        Statement::Layout(l) => collect_position_constraints_from_shapes(&l.children, collector),
        Statement::Group(g) => collect_position_constraints_from_shapes(&g.children, collector),
        _ => {
            assert(stmt_position_views(*stmt) =~= Seq::<ConstraintView>::empty());
            assert(constraint_views(collector.constraints@) =~= constraint_views(old(collector).constraints@)
                + stmt_position_views(*stmt));
        },
    }
}

/// Collect `x`/`y` modifiers of named shapes as fixed position constraints.
fn collect_position_constraints_from_shapes(stmts: &Vec<Spanned<Statement>>, collector: &mut ConstraintCollector)
    ensures
        final(collector).config == old(collector).config,
        constraint_views(final(collector).constraints@) == constraint_views(old(collector).constraints@)
            + stmts_position_views(stmts@),
    decreases stmts, 0nat,
{
    let mut i: usize = 0;
    while i < stmts.len()
        invariant
            i <= stmts@.len(),
            collector.config == old(collector).config,
            constraint_views(collector.constraints@) == constraint_views(old(collector).constraints@)
                + stmts_position_views(stmts@.subrange(0, i as int)),
        decreases stmts@.len() - i,
    {
        let ghost before = constraint_views(collector.constraints@);
        proof {
            let sub = stmts@.subrange(0, i + 1);
            assert(sub.subrange(0, sub.len() - 1) =~= stmts@.subrange(0, i as int));
            assert(sub[sub.len() - 1] == stmts@[i as int]);
        }
        assert(decreases_to!(stmts => stmts@[i as int].node));
        collect_position_statement(&stmts[i].node, collector);
        assert(constraint_views(collector.constraints@) =~= before + stmt_position_views(stmts@[i as int].node));
        i = i + 1;
    }
    assert(stmts@.subrange(0, stmts@.len() as int) =~= stmts@);
}

// ---------------------------------------------------------------------------
// What the constraints of the solver touch
// ---------------------------------------------------------------------------

/// The variable a constraint sets: the left-hand side of an equality, the
/// target of a midpoint, the variable of the others.
pub open spec fn target_var(c: LayoutConstraint) -> LayoutVariable {
    c.variables()[0]
}

/// Extract the target (element id, property) of a constraint.
pub fn get_constraint_target_var(constraint: &LayoutConstraint) -> (r: Option<(String, LayoutProperty)>)
    ensures
        r matches Some(t) && t.0@ == target_var(*constraint).element_id@ && t.1 == target_var(*constraint).property,
{
    match constraint {
        LayoutConstraint::Equal { left, .. } => Some((left.element_id.clone(), left.property)),
        LayoutConstraint::Midpoint { target, .. } => Some((target.element_id.clone(), target.property)),
        LayoutConstraint::GreaterOrEqual { variable, .. } => Some((variable.element_id.clone(), variable.property)),
        LayoutConstraint::LessOrEqual { variable, .. } => Some((variable.element_id.clone(), variable.property)),
        LayoutConstraint::Fixed { variable, .. } => Some((variable.element_id.clone(), variable.property)),
        LayoutConstraint::Suggested { variable, .. } => Some((variable.element_id.clone(), variable.property)),
    }
}

/// Collect all element ids a constraint references, in the order of its variables.
pub fn get_constraint_referenced_elements(constraint: &LayoutConstraint) -> (r: Vec<String>)
    ensures
        views(r@) == constraint.element_id_texts(),
{
    let ids = constraint.element_ids();
    let mut r: Vec<String> = Vec::new();
    let mut i: usize = 0;
    while i < ids.len()
        invariant
            i <= ids@.len(),
            ids@.len() == constraint.element_id_texts().len(),
            forall|k: int| 0 <= k < ids@.len() ==> #[trigger] ids@[k]@ == constraint.element_id_texts()[k],
            views(r@) == constraint.element_id_texts().subrange(0, i as int),
        decreases ids@.len() - i,
    {
        let ghost before = views(r@);
        r.push(String::from_str(ids[i]));
        i = i + 1;
        assert(views(r@) =~= constraint.element_id_texts().subrange(0, i as int)) by {
            assert(views(r@) =~= before.push(ids@[i - 1]@));
        }
    }
    assert(constraint.element_id_texts().subrange(0, i as int) =~= constraint.element_id_texts());
    r
}

// ---------------------------------------------------------------------------
// Custom anchors and labels of containers
// ---------------------------------------------------------------------------

/// The (group, anchors) declarations of a statement, in document order:
/// named groups that declare anchors, searched through layouts and groups.
pub open spec fn stmt_anchor_events(s: Statement) -> Seq<(Seq<char>, Seq<AnchorDecl>)>
    decreases s,
{
    match s {
        Statement::Group(g) => group_anchor_head(g) + stmts_anchor_events(g.children@),
        Statement::Layout(l) => stmts_anchor_events(l.children@),
        _ => Seq::empty(),
    }
}

/// The declaration a group itself makes: its name and anchors, when it is
/// named and declares some.
pub open spec fn group_anchor_head(g: GroupDecl) -> Seq<(Seq<char>, Seq<AnchorDecl>)> {
    match g.name {
        Some(n) => if g.anchors@.len() > 0 {
            seq![(n.node.0@, g.anchors@)]
        } else {
            Seq::empty()
        },
        None => Seq::empty(),
    }
}

/// The anchor declarations of a list of statements.
pub open spec fn stmts_anchor_events(ss: Seq<Spanned<Statement>>) -> Seq<(Seq<char>, Seq<AnchorDecl>)>
    decreases ss,
{
    if ss.len() == 0 {
        Seq::empty()
    } else {
        stmts_anchor_events(ss.subrange(0, ss.len() - 1)) + stmt_anchor_events(ss[ss.len() - 1].node)
    }
}

/// A map after recording declarations in order (a later one replaces an earlier).
pub open spec fn apply_anchor_events(m: Map<Seq<char>, Seq<AnchorDecl>>, evs: Seq<(Seq<char>, Seq<AnchorDecl>)>) -> Map<Seq<char>, Seq<AnchorDecl>>
    decreases evs.len(),
{
    if evs.len() == 0 {
        m
    } else {
        apply_anchor_events(m, evs.drop_last()).insert(evs.last().0, evs.last().1)
    }
}

proof fn lemma_apply_anchor_events_concat(
    m: Map<Seq<char>, Seq<AnchorDecl>>,
    a: Seq<(Seq<char>, Seq<AnchorDecl>)>,
    b: Seq<(Seq<char>, Seq<AnchorDecl>)>,
)
    ensures
        apply_anchor_events(m, a + b) == apply_anchor_events(apply_anchor_events(m, a), b),
    decreases b.len(),
{
    if b.len() == 0 {
        assert(a + b =~= a);
    } else {
        assert((a + b).drop_last() =~= a + b.drop_last());
        assert((a + b).last() == b.last());
        lemma_apply_anchor_events_concat(m, a, b.drop_last());
    }
}

/// The anchor lists a map holds.
pub open spec fn anchor_map_view(m: NameMap<Vec<AnchorDecl>>) -> Map<Seq<char>, Seq<AnchorDecl>> {
    Map::new(|k: Seq<char>| m.lookup(k) is Some, |k: Seq<char>| m.lookup(k).unwrap()@)
}

fn visit_anchor_statement(stmt: &Statement, map: &mut NameMap<Vec<AnchorDecl>>)
    requires
        old(map).wf(),
    ensures
        final(map).wf(),
        anchor_map_view(*final(map)) == apply_anchor_events(anchor_map_view(*old(map)), stmt_anchor_events(*stmt)),
    decreases stmt, 1nat,
{
    match stmt {
        Statement::Group(g) => {
            let ghost head = group_anchor_head(*g);
            match &g.name {
                Some(n) => {
                    if g.anchors.len() > 0 {
                        let anchors = clone_vec(&g.anchors);
                        map.insert(n.node.0.clone(), anchors);
                        assert(head.drop_last() =~= Seq::<(Seq<char>, Seq<AnchorDecl>)>::empty());
                        assert(head.last() == (n.node.0@, g.anchors@));
                        assert(map.lookup(n.node.0@) == Some(anchors));
                        assert(apply_anchor_events(anchor_map_view(*old(map)), head.drop_last()) == anchor_map_view(*old(map)));
                        assert(anchor_map_view(*map) =~= anchor_map_view(*old(map)).insert(n.node.0@, g.anchors@)) by {
                            assert forall|k: Seq<char>| #[trigger] map.lookup(k) is Some <==> (k == n.node.0@ || old(map).lookup(k) is Some) by {
                                if k != n.node.0@ {
                                    assert(map.lookup(k) == old(map).lookup(k));
                                }
                            }
                        }
                    } else {
                        assert(head =~= Seq::<(Seq<char>, Seq<AnchorDecl>)>::empty());
                    }
                },
                None => {
                    assert(head =~= Seq::<(Seq<char>, Seq<AnchorDecl>)>::empty());
                },
            }
            assert(anchor_map_view(*map) == apply_anchor_events(anchor_map_view(*old(map)), head));
            visit_anchor_statements(&g.children, map);
            proof {
                lemma_apply_anchor_events_concat(anchor_map_view(*old(map)), head, stmts_anchor_events(g.children@));
            }
        },
        Statement::Layout(l) => {
            visit_anchor_statements(&l.children, map);
        },
        _ => {
            assert(stmt_anchor_events(*stmt) =~= Seq::<(Seq<char>, Seq<AnchorDecl>)>::empty());
        },
    }
}

fn visit_anchor_statements(stmts: &Vec<Spanned<Statement>>, map: &mut NameMap<Vec<AnchorDecl>>)
    requires
        old(map).wf(),
    ensures
        final(map).wf(),
        anchor_map_view(*final(map)) == apply_anchor_events(anchor_map_view(*old(map)), stmts_anchor_events(stmts@)),
    decreases stmts, 0nat,
{
    let mut i: usize = 0;
    while i < stmts.len()
        invariant
            i <= stmts@.len(),
            map.wf(),
            anchor_map_view(*map) == apply_anchor_events(anchor_map_view(*old(map)), stmts_anchor_events(stmts@.subrange(0, i as int))),
        decreases stmts@.len() - i,
    {
        proof {
            let sub = stmts@.subrange(0, i + 1);
            assert(sub.subrange(0, sub.len() - 1) =~= stmts@.subrange(0, i as int));
            assert(sub[sub.len() - 1] == stmts@[i as int]);
            lemma_apply_anchor_events_concat(
                anchor_map_view(*old(map)),
                stmts_anchor_events(stmts@.subrange(0, i as int)),
                stmt_anchor_events(stmts@[i as int].node),
            );
        }
        assert(decreases_to!(stmts => stmts@[i as int].node));
        visit_anchor_statement(&stmts[i].node, map);
        i = i + 1;
    }
    assert(stmts@.subrange(0, i as int) =~= stmts@);
}

/// Build a map from group name to its custom anchor declarations (a group
/// declared again later replaces the earlier entry).
pub fn build_group_anchor_decl_map(doc: &Document) -> (r: NameMap<Vec<AnchorDecl>>)
    ensures
        r.wf(),
        anchor_map_view(r) == apply_anchor_events(Map::empty(), stmts_anchor_events(doc.statements@)),
{
    let mut map: NameMap<Vec<AnchorDecl>> = NameMap::new();
    assert(anchor_map_view(map) =~= Map::<Seq<char>, Seq<AnchorDecl>>::empty());
    visit_anchor_statements(&doc.statements, &mut map);
    map
}

/// Extract the text of the first `label:` modifier with a string value.
pub fn extract_label(modifiers: &Vec<Spanned<StyleModifier>>) -> (r: Option<String>)
    ensures
        match r {
            Some(s) => first_label(modifiers@) == Some(s@),
            None => first_label(modifiers@) is None,
        },
{
    let mut i: usize = 0;
    assert(modifiers@.subrange(0, modifiers@.len() as int) =~= modifiers@);
    while i < modifiers.len()
        invariant
            i <= modifiers@.len(),
            first_label(modifiers@) == first_label(modifiers@.subrange(i as int, modifiers@.len() as int)),
        decreases modifiers@.len() - i,
    {
        let ghost rest = modifiers@.subrange(i as int, modifiers@.len() as int);
        assert(rest[0] == modifiers@[i as int]);
        assert(rest.drop_first() =~= modifiers@.subrange(i + 1, modifiers@.len() as int));
        match (&modifiers[i].node.key.node, &modifiers[i].node.value.node) {
            (StyleKey::Label, StyleValue::String(s)) => {
                return Some(s.clone());
            },
            _ => {},
        }
        i = i + 1;
    }
    None
}

/// The statement inside the first `label { ... }` child.
pub open spec fn first_label_statement(children: Seq<Spanned<Statement>>) -> Option<Statement>
    decreases children.len(),
{
    if children.len() == 0 {
        None
    } else {
        match children[0].node {
            Statement::Label(inner) => Some(*inner),
            _ => first_label_statement(children.drop_first()),
        }
    }
}

/// Extract the first `label` statement among children: the statement it wraps.
pub fn extract_label_statement(children: &Vec<Spanned<Statement>>) -> (r: Option<&Statement>)
    ensures
        match r {
            Some(s) => first_label_statement(children@) == Some(*s),
            None => first_label_statement(children@) is None,
        },
{
    let mut i: usize = 0;
    assert(children@.subrange(0, children@.len() as int) =~= children@);
    while i < children.len()
        invariant
            i <= children@.len(),
            first_label_statement(children@) == first_label_statement(children@.subrange(i as int, children@.len() as int)),
        decreases children@.len() - i,
    {
        let ghost rest = children@.subrange(i as int, children@.len() as int);
        assert(rest[0] == children@[i as int]);
        assert(rest.drop_first() =~= children@.subrange(i + 1, children@.len() as int));
        if let Statement::Label(inner) = &children[i].node {
            return Some(&**inner);
        }
        i = i + 1;
    }
    None
}

/// Some modifier says `role: label`.
pub open spec fn has_role_label_mods(mods: Seq<Spanned<StyleModifier>>) -> bool {
    exists|i: int| 0 <= i < mods.len() && (#[trigger] mods[i]).node.key.node is Role && match mods[i].node.value.node {
        StyleValue::Keyword(k) => k@ == "label"@,
        _ => false,
    }
}

/// A shape, layout or group marked `role: label`.
pub open spec fn role_label(s: Statement) -> bool {
    match s {
        Statement::Shape(sh) => has_role_label_mods(sh.modifiers@),
        Statement::Layout(l) => has_role_label_mods(l.modifiers@),
        Statement::Group(g) => has_role_label_mods(g.modifiers@),
        _ => false,
    }
}

fn has_role_label_in(mods: &Vec<Spanned<StyleModifier>>) -> (r: bool)
    ensures
        r == has_role_label_mods(mods@),
{
    let mut i: usize = 0;
    while i < mods.len()
        invariant
            i <= mods@.len(),
            forall|k: int| 0 <= k < i ==> !((#[trigger] mods@[k]).node.key.node is Role && match mods@[k].node.value.node {
                StyleValue::Keyword(w) => w@ == "label"@,
                _ => false,
            }),
        decreases mods@.len() - i,
    {
        if let StyleKey::Role = mods[i].node.key.node {
            if let StyleValue::Keyword(k) = &mods[i].node.value.node {
                if crate::strings::str_eq(k.as_str(), "label") {
                    return true;
                }
            }
        }
        i = i + 1;
    }
    false
}

/// Check if a statement has a `role: label` modifier.
pub fn has_role_label(stmt: &Statement) -> (r: bool)
    ensures
        r == role_label(*stmt),
{
    match stmt {
        Statement::Shape(s) => has_role_label_in(&s.modifiers),
        Statement::Layout(l) => has_role_label_in(&l.modifiers),
        Statement::Group(g) => has_role_label_in(&g.modifiers),
        _ => false,
    }
}

/// The first child marked `role: label`.
pub open spec fn first_role_label(children: Seq<Spanned<Statement>>) -> Option<Statement>
    decreases children.len(),
{
    if children.len() == 0 {
        None
    } else if role_label(children[0].node) {
        Some(children[0].node)
    } else {
        first_role_label(children.drop_first())
    }
}

/// Extract the first child with a `role: label` modifier.
pub fn extract_role_label_statement(children: &Vec<Spanned<Statement>>) -> (r: Option<&Statement>)
    ensures
        match r {
            Some(s) => first_role_label(children@) == Some(*s),
            None => first_role_label(children@) is None,
        },
{
    let mut i: usize = 0;
    assert(children@.subrange(0, children@.len() as int) =~= children@);
    while i < children.len()
        invariant
            i <= children@.len(),
            first_role_label(children@) == first_role_label(children@.subrange(i as int, children@.len() as int)),
        decreases children@.len() - i,
    {
        let ghost rest = children@.subrange(i as int, children@.len() as int);
        assert(rest[0] == children@[i as int]);
        assert(rest.drop_first() =~= children@.subrange(i + 1, children@.len() as int));
        if has_role_label(&children[i].node) {
            return Some(&children[i].node);
        }
        i = i + 1;
    }
    None
}

// ---------------------------------------------------------------------------
// Opposing positional constraints
// ---------------------------------------------------------------------------

/// Two relations that cannot both hold of one element.
pub open spec fn conflicting(a: PositionRelation, b: PositionRelation) -> bool {
    ||| (a is RightOf && b is LeftOf)
    ||| (a is LeftOf && b is RightOf)
    ||| (a is Above && b is Below)
    ||| (a is Below && b is Above)
}

/// Whether two relations conflict (right-of with left-of, above with below).
pub fn are_conflicting(a: &PositionRelation, b: &PositionRelation) -> (r: bool)
    ensures
        r == conflicting(*a, *b),
{
    match (a, b) {
        (PositionRelation::RightOf, PositionRelation::LeftOf) => true,
        (PositionRelation::LeftOf, PositionRelation::RightOf) => true,
        (PositionRelation::Above, PositionRelation::Below) => true,
        (PositionRelation::Below, PositionRelation::Above) => true,
        _ => false,
    }
}

/// The relational constraints (subject, relation, anchor) of a statement,
/// searched through layouts and groups.
pub open spec fn stmt_relations(s: Statement) -> Seq<(Seq<char>, PositionRelation, Seq<char>)>
    decreases s,
{
    match s {
        Statement::Constraint(c) => match (c.relation, c.anchor) {
            (Some(r), Some(a)) => seq![(c.subject.node.0@, r.node, a.node.0@)],
            _ => Seq::empty(),
        },
        Statement::Layout(l) => stmts_relations(l.children@),
        Statement::Group(g) => stmts_relations(g.children@),
        _ => Seq::empty(),
    }
}

/// The relational constraints of a list of statements, in document order.
pub open spec fn stmts_relations(ss: Seq<Spanned<Statement>>) -> Seq<(Seq<char>, PositionRelation, Seq<char>)>
    decreases ss,
{
    if ss.len() == 0 {
        Seq::empty()
    } else {
        stmts_relations(ss.subrange(0, ss.len() - 1)) + stmt_relations(ss[ss.len() - 1].node)
    }
}

/// How a relation is spelled in messages (its variant name).
pub open spec fn relation_name(r: PositionRelation) -> Seq<char> {
    match r {
        PositionRelation::RightOf => "RightOf"@,
        PositionRelation::LeftOf => "LeftOf"@,
        PositionRelation::Above => "Above"@,
        PositionRelation::Below => "Below"@,
        PositionRelation::Inside => "Inside"@,
    }
}

/// `subject Relation anchor`.
pub open spec fn relation_text(t: (Seq<char>, PositionRelation, Seq<char>)) -> Seq<char> {
    t.0 + " "@ + relation_name(t.1) + " "@ + t.2
}

/// Two relational constraints on one subject that conflict.
pub open spec fn conflict_at(rs: Seq<(Seq<char>, PositionRelation, Seq<char>)>, a: int, b: int) -> bool {
    0 <= a < b < rs.len() && rs[a].0 == rs[b].0 && conflicting(rs[a].1, rs[b].1)
}

/// The error naming two conflicting relational constraints.
pub open spec fn conflict_error(
    e: LayoutError,
    x: (Seq<char>, PositionRelation, Seq<char>),
    y: (Seq<char>, PositionRelation, Seq<char>),
) -> bool {
    e matches LayoutError::ConflictingConstraints { constraints, reason } && views(constraints@) == seq![
        relation_text(x),
        relation_text(y),
    ] && reason@ == "Cannot satisfy opposing position constraints on the same element"@
}

/// The view of collected relations.
pub open spec fn relation_views(v: Seq<(String, PositionRelation, String)>) -> Seq<(Seq<char>, PositionRelation, Seq<char>)> {
    v.map_values(|t: (String, PositionRelation, String)| (t.0@, t.1, t.2@))
}

fn collect_relations_in_statement(stmt: &Statement, out: &mut Vec<(String, PositionRelation, String)>)
    ensures
        relation_views(final(out)@) == relation_views(old(out)@) + stmt_relations(*stmt),
    decreases stmt, 1nat,
{
    match stmt {
        Statement::Constraint(c) => {
            match (&c.relation, &c.anchor) {
                (Some(r), Some(a)) => {
                    out.push((c.subject.node.0.clone(), r.node, a.node.0.clone()));
                },
                _ => {},
            }
            assert(relation_views(out@) =~= relation_views(old(out)@) + stmt_relations(*stmt));
        },
        Statement::Layout(l) => {
            collect_relations(&l.children, out);
        },
        Statement::Group(g) => {
            collect_relations(&g.children, out);
        },
        _ => {
            assert(relation_views(out@) =~= relation_views(old(out)@) + stmt_relations(*stmt));
        },
    }
}

fn collect_relations(stmts: &Vec<Spanned<Statement>>, out: &mut Vec<(String, PositionRelation, String)>)
    ensures
        relation_views(final(out)@) == relation_views(old(out)@) + stmts_relations(stmts@),
    decreases stmts, 0nat,
{
    let mut i: usize = 0;
    while i < stmts.len()
        invariant
            i <= stmts@.len(),
            relation_views(out@) == relation_views(old(out)@) + stmts_relations(stmts@.subrange(0, i as int)),
        decreases stmts@.len() - i,
    {
        let ghost sub = stmts@.subrange(0, i + 1);
        assert(sub.subrange(0, sub.len() - 1) =~= stmts@.subrange(0, i as int));
        assert(sub[sub.len() - 1] == stmts@[i as int]);
        assert(decreases_to!(stmts => stmts@[i as int].node));
        collect_relations_in_statement(&stmts[i].node, out);
        i = i + 1;
    }
    assert(stmts@.subrange(0, i as int) =~= stmts@);
}

fn relation_message(t: &(String, PositionRelation, String)) -> (r: String)
    ensures
        r@ == relation_text((t.0@, t.1, t.2@)),
{
    let mut s = String::new();
    s.append(t.0.as_str());
    s.append(" ");
    match t.1 {
        PositionRelation::RightOf => s.append("RightOf"),
        PositionRelation::LeftOf => s.append("LeftOf"),
        PositionRelation::Above => s.append("Above"),
        PositionRelation::Below => s.append("Below"),
        PositionRelation::Inside => s.append("Inside"),
    }
    s.append(" ");
    s.append(t.2.as_str());
    assert(s@ =~= relation_text((t.0@, t.1, t.2@)));
    s
}

/// The value of the last numeric `x` (`want_x`) or `y` modifier, zero when
/// there is none.
pub open spec fn offset_value(mods: Seq<Spanned<StyleModifier>>, want_x: bool) -> Num
    decreases mods.len(),
{
    if mods.len() == 0 {
        Num { milli: 0 }
    } else {
        let m = mods.last().node;
        if (if want_x { m.key.node is X } else { m.key.node is Y }) && m.value.node is Number {
            m.value.node->value
        } else {
            offset_value(mods.drop_last(), want_x)
        }
    }
}

/// The (subject, x, y) offsets of the placements in a statement, searched
/// through layouts and groups; a placement with no offset contributes none.
pub open spec fn stmt_offsets(s: Statement) -> Seq<(Seq<char>, Num, Num)>
    decreases s,
{
    match s {
        Statement::Constraint(c) => {
            let x = offset_value(c.modifiers@, true);
            let y = offset_value(c.modifiers@, false);
            if x.milli != 0 || y.milli != 0 {
                seq![(c.subject.node.0@, x, y)]
            } else {
                Seq::empty()
            }
        },
        Statement::Layout(l) => stmts_offsets(l.children@),
        Statement::Group(g) => stmts_offsets(g.children@),
        _ => Seq::empty(),
    }
}

/// The offsets of a list of statements, in document order.
pub open spec fn stmts_offsets(ss: Seq<Spanned<Statement>>) -> Seq<(Seq<char>, Num, Num)>
    decreases ss,
{
    if ss.len() == 0 {
        Seq::empty()
    } else {
        stmts_offsets(ss.subrange(0, ss.len() - 1)) + stmt_offsets(ss[ss.len() - 1].node)
    }
}

/// The view of collected offsets.
pub open spec fn offset_views(v: Seq<(String, Num, Num)>) -> Seq<(Seq<char>, Num, Num)> {
    v.map_values(|t: (String, Num, Num)| (t.0@, t.1, t.2))
}

fn placement_offsets(mods: &Vec<Spanned<StyleModifier>>) -> (r: (Num, Num))
    ensures
        r == (offset_value(mods@, true), offset_value(mods@, false)),
{
    let mut x = Num { milli: 0 };
    let mut y = Num { milli: 0 };
    let mut i: usize = 0;
    while i < mods.len()
        invariant
            i <= mods@.len(),
            x == offset_value(mods@.subrange(0, i as int), true),
            y == offset_value(mods@.subrange(0, i as int), false),
        decreases mods@.len() - i,
    {
        let ghost sub = mods@.subrange(0, i + 1);
        assert(sub.drop_last() =~= mods@.subrange(0, i as int));
        assert(sub.last() == mods@[i as int]);
        match (&mods[i].node.key.node, &mods[i].node.value.node) {
            (StyleKey::X, StyleValue::Number { value, .. }) => {
                x = *value;
            },
            (StyleKey::Y, StyleValue::Number { value, .. }) => {
                y = *value;
            },
            _ => {},
        }
        i = i + 1;
    }
    assert(mods@.subrange(0, i as int) =~= mods@);
    (x, y)
}

fn collect_offsets_in_statement(stmt: &Statement, out: &mut Vec<(String, Num, Num)>)
    ensures
        offset_views(final(out)@) == offset_views(old(out)@) + stmt_offsets(*stmt),
    decreases stmt, 1nat,
{
    match stmt {
        Statement::Constraint(c) => {
            let (x, y) = placement_offsets(&c.modifiers);
            if x.milli != 0 || y.milli != 0 {
                out.push((c.subject.node.0.clone(), x, y));
            }
            assert(offset_views(out@) =~= offset_views(old(out)@) + stmt_offsets(*stmt));
        },
        Statement::Layout(l) => {
            collect_position_offsets_into(&l.children, out);
        },
        Statement::Group(g) => {
            collect_position_offsets_into(&g.children, out);
        },
        _ => {
            assert(offset_views(out@) =~= offset_views(old(out)@) + stmt_offsets(*stmt));
        },
    }
}

fn collect_position_offsets_into(stmts: &Vec<Spanned<Statement>>, out: &mut Vec<(String, Num, Num)>)
    ensures
        offset_views(final(out)@) == offset_views(old(out)@) + stmts_offsets(stmts@),
    decreases stmts, 0nat,
{
    let mut i: usize = 0;
    while i < stmts.len()
        invariant
            i <= stmts@.len(),
            offset_views(out@) == offset_views(old(out)@) + stmts_offsets(stmts@.subrange(0, i as int)),
        decreases stmts@.len() - i,
    {
        let ghost sub = stmts@.subrange(0, i + 1);
        assert(sub.subrange(0, sub.len() - 1) =~= stmts@.subrange(0, i as int));
        assert(sub[sub.len() - 1] == stmts@[i as int]);
        assert(decreases_to!(stmts => stmts@[i as int].node));
        collect_offsets_in_statement(&stmts[i].node, out);
        i = i + 1;
    }
    assert(stmts@.subrange(0, i as int) =~= stmts@);
}

/// Collect the position offsets of `place` statements: for each placement
/// with a nonzero `x` or `y` modifier, the subject and both offsets (the last
/// `x` and `y` given win), in document order.
pub fn collect_position_offsets(stmts: &Vec<Spanned<Statement>>) -> (r: Vec<(String, Num, Num)>)
    ensures
        offset_views(r@) == stmts_offsets(stmts@),
{
    let mut out: Vec<(String, Num, Num)> = Vec::new();
    collect_position_offsets_into(stmts, &mut out);
    assert(offset_views(Seq::<(String, Num, Num)>::empty()) + stmts_offsets(stmts@) =~= stmts_offsets(stmts@));
    out
}

/// Refuse a document in which one element is placed both right-of and
/// left-of, or both above and below, other elements: the error names such a
/// pair of constraints.
pub fn detect_conflicts(doc: &Document) -> (r: Result<(), LayoutError>)
    ensures
        match r {
            Ok(_) => forall|a: int, b: int| !#[trigger] conflict_at(stmts_relations(doc.statements@), a, b),
            Err(e) => exists|a: int, b: int|
                #[trigger] conflict_at(stmts_relations(doc.statements@), a, b) && conflict_error(
                    e,
                    stmts_relations(doc.statements@)[a],
                    stmts_relations(doc.statements@)[b],
                ),
        },
{
    let mut rels: Vec<(String, PositionRelation, String)> = Vec::new();
    collect_relations(&doc.statements, &mut rels);
    let ghost rs = stmts_relations(doc.statements@);
    assert(relation_views(rels@) =~= rs);
    let mut a: usize = 0;
    while a < rels.len()
        invariant
            a <= rels@.len(),
            relation_views(rels@) == rs,
            rs == stmts_relations(doc.statements@),
            forall|x: int, y: int| 0 <= x < a ==> !#[trigger] conflict_at(rs, x, y),
        decreases rels@.len() - a,
    {
        let mut b: usize = a + 1;
        while b < rels.len()
            invariant
                a < rels@.len(),
                a + 1 <= b <= rels@.len(),
                relation_views(rels@) == rs,
                rs == stmts_relations(doc.statements@),
                forall|y: int| a < y < b ==> !#[trigger] conflict_at(rs, a as int, y),
            decreases rels@.len() - b,
        {
            assert(rs[a as int] == (rels@[a as int].0@, rels@[a as int].1, rels@[a as int].2@));
            assert(rs[b as int] == (rels@[b as int].0@, rels@[b as int].1, rels@[b as int].2@));
            if crate::strings::str_eq(rels[a].0.as_str(), rels[b].0.as_str()) && are_conflicting(&rels[a].1, &rels[b].1) {
                let mut constraints: Vec<String> = Vec::new();
                constraints.push(relation_message(&rels[a]));
                constraints.push(relation_message(&rels[b]));
                assert(views(constraints@) =~= seq![relation_text(rs[a as int]), relation_text(rs[b as int])]);
                let e = LayoutError::conflicting(constraints, "Cannot satisfy opposing position constraints on the same element");
                assert(conflict_at(rs, a as int, b as int));
                assert(conflict_error(e, rs[a as int], rs[b as int]));
                return Err(e);
            }
            b = b + 1;
        }
        a = a + 1;
    }
    Ok(())
}

/// Conflict between two relations is opposition of direction: it does not
/// depend on their order, right-of opposes left-of and above opposes below,
/// and nothing else conflicts (no relation with itself, `inside` with none).
pub proof fn lemma_conflict_is_opposition(a: PositionRelation, b: PositionRelation)
    ensures
        conflicting(a, b) == conflicting(b, a),
        conflicting(a, b) <==> a != b && (((a is Above || a is Below) && (b is Above || b is Below)) || ((
        a is LeftOf || a is RightOf) && (b is LeftOf || b is RightOf))),
        !conflicting(a, a),
        !conflicting(a, PositionRelation::Inside),
{
}

/// A document that places one element on both sides of others, in either
/// order (above one and below another, or left of one and right of
/// another), holds a conflict, so `detect_conflicts` refuses it.
pub proof fn lemma_opposite_placements_conflict(doc: Document, i: int, j: int)
    requires
        0 <= i < stmts_relations(doc.statements@).len(),
        0 <= j < stmts_relations(doc.statements@).len(),
        stmts_relations(doc.statements@)[i].0 == stmts_relations(doc.statements@)[j].0,
        (stmts_relations(doc.statements@)[i].1 is Above && stmts_relations(doc.statements@)[j].1 is Below)
            || (stmts_relations(doc.statements@)[i].1 is LeftOf && stmts_relations(doc.statements@)[j].1 is RightOf),
    ensures
        exists|a: int, b: int| #[trigger] conflict_at(stmts_relations(doc.statements@), a, b),
{
    let rs = stmts_relations(doc.statements@);
    lemma_conflict_is_opposition(rs[i].1, rs[j].1);
    if i < j {
        assert(conflict_at(rs, i, j));
    } else {
        assert(i != j);
        assert(conflict_at(rs, j, i));
    }
}

// ---------------------------------------------------------------------------
// The order in which relational constraints are applied
// ---------------------------------------------------------------------------

/// The relational constraints of a document: each subject depends on its anchor.
pub struct ConstraintGraph {
    pub relations: Vec<(String, PositionRelation, String)>,
    pub config: LayoutConfig,
}

/// The elements a list of relations mentions, as subject or anchor.
pub open spec fn graph_nodes(rs: Seq<(Seq<char>, PositionRelation, Seq<char>)>) -> Set<Seq<char>> {
    Set::new(|n: Seq<char>| exists|i: int| #![trigger rs[i]] 0 <= i < rs.len() && (rs[i].0 == n || rs[i].2 == n))
}

/// `order` lists every element once, each anchor before the subjects placed
/// relative to it.
pub open spec fn is_topological(rs: Seq<(Seq<char>, PositionRelation, Seq<char>)>, order: Seq<Seq<char>>) -> bool {
    &&& order.no_duplicates()
    &&& order.to_set() == graph_nodes(rs)
    &&& forall|i: int, p: int, q: int|
        #![trigger rs[i], order[p], order[q]]
        0 <= i < rs.len() && 0 <= p < order.len() && 0 <= q < order.len() && order[p] == rs[i].0
            && order[q] == rs[i].2 ==> q < p
}

/// Every element of the nonempty set `r` is placed relative to an anchor in `r`:
/// the elements of `r` depend on one another in a cycle.
pub open spec fn stuck(rs: Seq<(Seq<char>, PositionRelation, Seq<char>)>, r: Set<Seq<char>>) -> bool {
    &&& exists|v: Seq<char>| r.contains(v)
    &&& r.subset_of(graph_nodes(rs))
    &&& forall|v: Seq<char>| r.contains(v) ==> #[trigger] anchored_in(rs, r, v)
}

/// `v` is placed relative to an anchor in `r`.
pub open spec fn anchored_in(rs: Seq<(Seq<char>, PositionRelation, Seq<char>)>, r: Set<Seq<char>>, v: Seq<char>) -> bool {
    exists|i: int| #![trigger rs[i]] 0 <= i < rs.len() && rs[i].0 == v && r.contains(rs[i].2)
}

proof fn lemma_stuck_below(rs: Seq<(Seq<char>, PositionRelation, Seq<char>)>, r: Set<Seq<char>>, order: Seq<Seq<char>>, k: int)
    requires
        stuck(rs, r),
        is_topological(rs, order),
        0 <= k <= order.len(),
    ensures
        forall|p: int| 0 <= p < k ==> !r.contains(#[trigger] order[p]),
    decreases k,
{
    if k > 0 {
        lemma_stuck_below(rs, r, order, k - 1);
        let p = k - 1;
        if r.contains(order[p]) {
            let v = order[p];
            assert(anchored_in(rs, r, v));
            let i = choose|i: int| #![trigger rs[i]] 0 <= i < rs.len() && rs[i].0 == v && r.contains(rs[i].2);
            let a = rs[i].2;
            assert(graph_nodes(rs).contains(a));
            assert(order.to_set().contains(a));
            let q = choose|q: int| 0 <= q < order.len() && order[q] == a;
            assert(q < p);
        }
    }
}

/// Elements that depend on one another in a cycle admit no order.
pub proof fn lemma_stuck_no_order(rs: Seq<(Seq<char>, PositionRelation, Seq<char>)>, r: Set<Seq<char>>, order: Seq<Seq<char>>)
    requires
        stuck(rs, r),
    ensures
        !is_topological(rs, order),
{
    if is_topological(rs, order) {
        lemma_stuck_below(rs, r, order, order.len() as int);
        let v = choose|v: Seq<char>| r.contains(v);
        assert(graph_nodes(rs).contains(v));
        assert(order.to_set().contains(v));
        let p = choose|p: int| 0 <= p < order.len() && order[p] == v;
        assert(!r.contains(order[p]));
    }
}

/// The number of edges into `v` whose source is not yet done.
spec fn pending(es: Seq<(usize, usize)>, done: Set<usize>, v: int) -> nat
    decreases es.len(),
{
    if es.len() == 0 {
        0
    } else {
        pending(es.drop_last(), done, v) + if es.last().1 as int == v && !done.contains(es.last().0) {
            1nat
        } else {
            0nat
        }
    }
}

/// The number of edges from `u` into `v`.
spec fn edges_between(es: Seq<(usize, usize)>, u: int, v: int) -> nat
    decreases es.len(),
{
    if es.len() == 0 {
        0
    } else {
        edges_between(es.drop_last(), u, v) + if es.last().0 as int == u && es.last().1 as int == v {
            1nat
        } else {
            0nat
        }
    }
}

proof fn lemma_pending_done(es: Seq<(usize, usize)>, done: Set<usize>, u: usize, v: int)
    requires
        !done.contains(u),
    ensures
        pending(es, done, v) == pending(es, done.insert(u), v) + edges_between(es, u as int, v),
    decreases es.len(),
{
    if es.len() > 0 {
        lemma_pending_done(es.drop_last(), done, u, v);
    }
}

proof fn lemma_between_le_pending(es: Seq<(usize, usize)>, done: Set<usize>, u: usize, v: int)
    requires
        !done.contains(u),
    ensures
        edges_between(es, u as int, v) <= pending(es, done, v),
    decreases es.len(),
{
    if es.len() > 0 {
        lemma_between_le_pending(es.drop_last(), done, u, v);
    }
}

proof fn lemma_pending_zero(es: Seq<(usize, usize)>, done: Set<usize>, v: int, k: int)
    requires
        pending(es, done, v) == 0,
        0 <= k < es.len(),
        es[k].1 as int == v,
    ensures
        done.contains(es[k].0),
    decreases es.len(),
{
    if k < es.len() - 1 {
        assert(es.drop_last()[k] == es[k]);
        lemma_pending_zero(es.drop_last(), done, v, k);
    }
}

proof fn lemma_pending_positive(es: Seq<(usize, usize)>, done: Set<usize>, v: int)
    requires
        pending(es, done, v) > 0,
    ensures
        exists|k: int| #![trigger es[k]] 0 <= k < es.len() && es[k].1 as int == v && !done.contains(es[k].0),
    decreases es.len(),
{
    if es.len() > 0 {
        if es.last().1 as int == v && !done.contains(es.last().0) {
            assert(es[es.len() - 1] == es.last());
        } else {
            lemma_pending_positive(es.drop_last(), done, v);
            let k = choose|k: int| #![trigger es.drop_last()[k]] 0 <= k < es.drop_last().len() && es.drop_last()[k].1 as int == v && !done.contains(es.drop_last()[k].0);
            assert(es[k] == es.drop_last()[k]);
        }
    }
}

proof fn lemma_between_prefix(es: Seq<(usize, usize)>, u: int, v: int, j: int)
    requires
        0 <= j < es.len(),
    ensures
        edges_between(es.subrange(0, j + 1), u, v) == edges_between(es.subrange(0, j), u, v) + if es[j].0 as int == u
            && es[j].1 as int == v {
            1nat
        } else {
            0nat
        },
        edges_between(es.subrange(0, j + 1), u, v) <= edges_between(es, u, v),
    decreases es.len() - j,
{
    assert(es.subrange(0, j + 1).drop_last() =~= es.subrange(0, j));
    if j + 1 < es.len() {
        lemma_between_prefix(es, u, v, j + 1);
    } else {
        assert(es.subrange(0, j + 1) =~= es);
    }
}

proof fn lemma_pending_le_len(es: Seq<(usize, usize)>, done: Set<usize>, v: int)
    ensures
        pending(es, done, v) <= es.len(),
    decreases es.len(),
{
    if es.len() > 0 {
        lemma_pending_le_len(es.drop_last(), done, v);
    }
}

/// Distinct positions below `n` number at most `n`.
proof fn lemma_distinct_below(s: Seq<usize>, n: int)
    requires
        0 <= n <= usize::MAX,
        s.no_duplicates(),
        forall|i: int| 0 <= i < s.len() ==> (#[trigger] s[i]) < n,
    ensures
        s.len() <= n,
    decreases n,
{
    if n <= 0 {
        if s.len() > 0 {
            assert(s[0] < n);
        }
    } else if s.contains((n - 1) as usize) {
        let k = choose|k: int| 0 <= k < s.len() && s[k] == (n - 1) as usize;
        let s2 = s.remove(k);
        assert(s2.len() == s.len() - 1);
        assert forall|i: int| 0 <= i < s2.len() implies (#[trigger] s2[i]) < n - 1 by {
            if i < k {
                assert(s2[i] == s[i]);
                assert(s[i] != s[k]);
            } else {
                assert(s2[i] == s[i + 1]);
                assert(s[i + 1] != s[k]);
            }
        }
        assert(s2.no_duplicates()) by {
            assert forall|a: int, b: int| 0 <= a < s2.len() && 0 <= b < s2.len() && a != b implies s2[a] != s2[b] by {
                let a2 = if a < k { a } else { a + 1 };
                let b2 = if b < k { b } else { b + 1 };
                assert(s2[a] == s[a2] && s2[b] == s[b2]);
            }
        }
        lemma_distinct_below(s2, n - 1);
    } else {
        assert forall|i: int| 0 <= i < s.len() implies (#[trigger] s[i]) < n - 1 by {
            assert(s[i] != (n - 1) as usize);
        }
        lemma_distinct_below(s, n - 1);
    }
}

/// Distinct positions below `n` that miss `t < n` number fewer than `n`.
proof fn lemma_distinct_below_missing(s: Seq<usize>, n: int, t: usize)
    requires
        n <= usize::MAX,
        s.no_duplicates(),
        forall|i: int| 0 <= i < s.len() ==> (#[trigger] s[i]) < n,
        t < n,
        !s.contains(t),
    ensures
        s.len() < n,
{
    if s.contains((n - 1) as usize) {
        let k = choose|k: int| 0 <= k < s.len() && s[k] == (n - 1) as usize;
        let s2 = s.update(k, t);
        assert forall|i: int| 0 <= i < s2.len() implies (#[trigger] s2[i]) < n - 1 by {
            if i != k {
                assert(s[i] != s[k]);
            }
        }
        assert(s2.no_duplicates()) by {
            assert forall|a: int, b: int| 0 <= a < s2.len() && 0 <= b < s2.len() && a != b implies s2[a] != s2[b] by {
                if a == k {
                    assert(s2[b] == s[b]);
                } else if b == k {
                    assert(s2[a] == s[a]);
                } else {
                    assert(s2[a] == s[a] && s2[b] == s[b]);
                }
            }
        }
        lemma_distinct_below(s2, n - 1);
    } else {
        assert forall|i: int| 0 <= i < s.len() implies (#[trigger] s[i]) < n - 1 by {
            assert(s[i] != (n - 1) as usize);
        }
        lemma_distinct_below(s, n - 1);
    }
}

/// Once `u` is placed last, nothing placed earlier (or `u` itself) is the
/// target of an edge from `u`.
proof fn lemma_not_placed_before_source(es: Seq<(usize, usize)>, result: Seq<usize>, u: usize, t: usize, j: int, p: int)
    requires
        0 <= j < es.len(),
        es[j] == (u, t),
        0 <= p < result.len(),
        result.len() > 0,
        result[result.len() - 1] == u,
        result.no_duplicates(),
        forall|jj: int, pp: int| #![trigger result[pp], es[jj]] 0 <= jj < es.len() && 0 <= pp < result.len() && result[pp] == es[jj].1 ==> exists|q: int| #![trigger result[q]] 0 <= q < pp && result[q] == es[jj].0,
    ensures
        result[p] != t,
{
    if result[p] == t {
        assert(result[p] == es[j].1);
        let q = choose|q: int| 0 <= q < p && #[trigger] result[q] == es[j].0;
        assert(result[q] == u);
        assert(q != result.len() - 1);
    }
}

proof fn lemma_order_valid(
    rs: Seq<(Seq<char>, PositionRelation, Seq<char>)>,
    names: Seq<String>,
    es: Seq<(usize, usize)>,
    result: Seq<usize>,
    order: Seq<String>,
)
    requires
        names.len() <= usize::MAX,
        views(names).no_duplicates(),
        views(names).to_set() == graph_nodes(rs),
        es.len() == rs.len(),
        forall|j: int| 0 <= j < es.len() ==> (#[trigger] es[j]).0 < names.len() && es[j].1 < names.len()
            && names[es[j].0 as int]@ == rs[j].2 && names[es[j].1 as int]@ == rs[j].0,
        result.len() == names.len(),
        result.no_duplicates(),
        forall|q: int| 0 <= q < result.len() ==> (#[trigger] result[q]) < names.len(),
        order.len() == result.len(),
        forall|q: int| 0 <= q < order.len() ==> #[trigger] order[q]@ == names[result[q] as int]@,
        forall|jj: int, p: int| #![trigger result[p], es[jj]] 0 <= jj < es.len() && 0 <= p < result.len() && result[p] == es[jj].1 ==> exists|q: int| #![trigger result[q]] 0 <= q < p && result[q] == es[jj].0,
    ensures
        is_topological(rs, views(order)),
{
    let o = views(order);
    let n = names.len() as int;
    assert forall|x: usize| x < n implies result.contains(x) by {
        if !result.contains(x) {
            lemma_distinct_below_missing(result, n, x);
        }
    }
    assert forall|a: int, b: int| 0 <= a < names.len() && 0 <= b < names.len() && names[a]@ == names[b]@ implies a == b by {
        if a != b {
            assert(views(names)[a] == views(names)[b]);
        }
    }
    assert(o.no_duplicates()) by {
        assert forall|a: int, b: int| 0 <= a < o.len() && 0 <= b < o.len() && a != b implies o[a] != o[b] by {
            assert(result[a] != result[b]);
        }
    }
    assert(o.to_set() =~= graph_nodes(rs)) by {
        assert forall|x: Seq<char>| #[trigger] o.contains(x) <==> views(names).contains(x) by {
            if o.contains(x) {
                let q = choose|q: int| 0 <= q < o.len() && o[q] == x;
                assert(views(names)[result[q] as int] == x);
            }
            if views(names).contains(x) {
                let y = choose|y: int| 0 <= y < views(names).len() && views(names)[y] == x;
                assert(0 <= y < n);
                assert((y as usize) < n);
                assert(result.contains(y as usize));
                let q = choose|q: int| 0 <= q < result.len() && result[q] == y as usize;
                assert(order[q]@ == names[result[q] as int]@);
                assert(result[q] as int == y);
                assert(o[q] == order[q]@);
                assert(o[q] == x);
            }
        }
        assert forall|x: Seq<char>| #[trigger] views(names).to_set().contains(x) <==> views(names).contains(x) by {}
    }
    assert forall|i: int, p: int, q: int|
        #![trigger rs[i], o[p], o[q]]
        0 <= i < rs.len() && 0 <= p < o.len() && 0 <= q < o.len() && o[p] == rs[i].0 && o[q] == rs[i].2 implies q < p by {
        assert(names[result[p] as int]@ == names[es[i].1 as int]@);
        assert(result[p] == es[i].1);
        let q2 = choose|q2: int| 0 <= q2 < p && #[trigger] result[q2] == es[i].0;
        assert(o[q2] == rs[i].2);
        assert(q2 == q);
    }
}

proof fn lemma_cycle_stuck(
    rs: Seq<(Seq<char>, PositionRelation, Seq<char>)>,
    names: Seq<String>,
    es: Seq<(usize, usize)>,
    indeg: Seq<usize>,
    result: Seq<usize>,
    done: Set<usize>,
    cycle: Seq<String>,
    ids: Seq<int>,
)
    requires
        names.len() <= usize::MAX,
        views(names).no_duplicates(),
        views(names).to_set() == graph_nodes(rs),
        es.len() == rs.len(),
        forall|j: int| 0 <= j < es.len() ==> (#[trigger] es[j]).0 < names.len() && es[j].1 < names.len()
            && names[es[j].0 as int]@ == rs[j].2 && names[es[j].1 as int]@ == rs[j].0,
        indeg.len() == names.len(),
        forall|x: int| 0 <= x < names.len() ==> #[trigger] indeg[x] == pending(es, done, x),
        forall|x: usize| #[trigger] done.contains(x) <==> result.contains(x),
        forall|x: int| 0 <= x < names.len() && indeg[x] == 0 ==> result.contains(x as usize),
        result.no_duplicates(),
        forall|q: int| 0 <= q < result.len() ==> (#[trigger] result[q]) < names.len(),
        result.len() < names.len(),
        ids.len() == cycle.len(),
        forall|c: int| 0 <= c < cycle.len() ==> 0 <= #[trigger] ids[c] < names.len() && indeg[ids[c]] > 0 && cycle[c]@ == names[ids[c]]@,
        forall|y: int| 0 <= y < names.len() && indeg[y] > 0 ==> views(cycle).contains(#[trigger] names[y]@),
    ensures
        stuck(rs, views(cycle).to_set()),
{
    let r = views(cycle).to_set();
    let n = names.len() as int;
    // Some element is not placed, so it waits.
    lemma_some_absent(result, n);
    let x = choose|x: usize| x < n && !result.contains(x);
    assert(indeg[x as int] > 0);
    assert(r.contains(names[x as int]@));
    assert forall|v: Seq<char>| #[trigger] r.contains(v) implies graph_nodes(rs).contains(v) by {
        let c = choose|c: int| 0 <= c < views(cycle).len() && views(cycle)[c] == v;
        let y = ids[c];
        assert(views(names)[y] == v);
        assert(views(names).to_set().contains(v));
    }
    assert forall|v: Seq<char>| r.contains(v) implies #[trigger] anchored_in(rs, r, v) by {
        let c = choose|c: int| 0 <= c < views(cycle).len() && views(cycle)[c] == v;
        let y = ids[c];
        lemma_pending_positive(es, done, y);
        let k = choose|k: int| #![trigger es[k]] 0 <= k < es.len() && es[k].1 as int == y && !done.contains(es[k].0);
        let a = es[k].0;
        assert(!result.contains(a));
        assert(indeg[a as int] > 0);
        assert(views(cycle).contains(names[a as int]@));
        assert(rs[k].0 == v);
        assert(rs[k].2 == names[a as int]@);
        assert(r.contains(rs[k].2));
    }
}

/// A distinct list of fewer than `n` positions below `n` misses one of them.
proof fn lemma_some_absent(s: Seq<usize>, n: int)
    requires
        n <= usize::MAX,
        s.no_duplicates(),
        forall|i: int| 0 <= i < s.len() ==> (#[trigger] s[i]) < n,
        s.len() < n,
    ensures
        exists|x: usize| x < n && !s.contains(x),
    decreases n,
{
    let t = (n - 1) as usize;
    if s.contains(t) {
        let k = choose|k: int| 0 <= k < s.len() && s[k] == t;
        let s2 = s.remove(k);
        assert forall|i: int| 0 <= i < s2.len() implies (#[trigger] s2[i]) < n - 1 by {
            if i < k {
                assert(s2[i] == s[i]);
                assert(s[i] != s[k]);
            } else {
                assert(s2[i] == s[i + 1]);
                assert(s[i + 1] != s[k]);
            }
        }
        assert(s2.no_duplicates()) by {
            assert forall|a: int, b: int| 0 <= a < s2.len() && 0 <= b < s2.len() && a != b implies s2[a] != s2[b] by {
                let a2 = if a < k { a } else { a + 1 };
                let b2 = if b < k { b } else { b + 1 };
                assert(s2[a] == s[a2] && s2[b] == s[b2]);
            }
        }
        lemma_some_absent(s2, n - 1);
        let x = choose|x: usize| x < n - 1 && !s2.contains(x);
        assert(!s.contains(x)) by {
            if s.contains(x) {
                let q = choose|q: int| 0 <= q < s.len() && s[q] == x;
                assert(q != k);
                if q < k {
                    assert(s2[q] == s[q]);
                    assert(s2.contains(x));
                } else {
                    assert(s2[q - 1] == s[q]);
                    assert(s2.contains(x));
                }
            }
        }
    }
}

/// Position of `s` among `names`, if present.
fn name_index(names: &Vec<String>, s: &String) -> (r: Option<usize>)
    ensures
        match r {
            Some(i) => i < names@.len() && names@[i as int]@ == s@,
            None => !views(names@).contains(s@),
        },
{
    let mut i: usize = 0;
    while i < names.len()
        invariant
            i <= names@.len(),
            forall|k: int| 0 <= k < i ==> names@[k]@ != s@,
        decreases names@.len() - i,
    {
        if crate::strings::str_eq(names[i].as_str(), s.as_str()) {
            return Some(i);
        }
        i = i + 1;
    }
    assert(!views(names@).contains(s@)) by {
        if views(names@).contains(s@) {
            let k = choose|k: int| 0 <= k < views(names@).len() && views(names@)[k] == s@;
            assert(names@[k]@ == s@);
        }
    }
    None
}

/// Adds `s` to `names` if absent; its position.
fn intern(names: &mut Vec<String>, s: &String) -> (r: usize)
    requires
        views(old(names)@).no_duplicates(),
    ensures
        views(final(names)@).no_duplicates(),
        r < final(names)@.len(),
        final(names)@[r as int]@ == s@,
        views(final(names)@).to_set() == views(old(names)@).to_set().insert(s@),
        old(names)@.len() <= final(names)@.len(),
        forall|k: int| 0 <= k < old(names)@.len() ==> #[trigger] final(names)@[k] == old(names)@[k],
{
    match name_index(names, s) {
        Some(i) => {
            assert(views(names@).contains(s@)) by {
                assert(views(names@)[i as int] == s@);
            }
            assert(views(names@).to_set() =~= views(names@).to_set().insert(s@));
            i
        },
        None => {
            let ghost before = views(names@);
            names.push(s.clone());
            assert(views(names@) =~= before.push(s@));
            assert(views(names@).to_set() =~= before.to_set().insert(s@)) by {
                assert forall|x: Seq<char>| #[trigger] views(names@).contains(x) <==> before.contains(x) || x == s@ by {
                    if views(names@).contains(x) {
                        let k = choose|k: int| 0 <= k < views(names@).len() && views(names@)[k] == x;
                        if k < before.len() {
                            assert(before[k] == x);
                        }
                    }
                    if before.contains(x) {
                        let k = choose|k: int| 0 <= k < before.len() && before[k] == x;
                        assert(views(names@)[k] == x);
                    }
                    if x == s@ {
                        assert(views(names@)[before.len() as int] == x);
                    }
                }
            }
            names.len() - 1
        },
    }
}

impl ConstraintGraph {
    /// The relational constraints of a document, with the default configuration.
    pub fn from_document(doc: &Document) -> (r: ConstraintGraph)
        ensures
            relation_views(r.relations@) == stmts_relations(doc.statements@),
    {
        let mut relations: Vec<(String, PositionRelation, String)> = Vec::new();
        collect_relations(&doc.statements, &mut relations);
        assert(relation_views(relations@) =~= stmts_relations(doc.statements@));
        ConstraintGraph { relations, config: LayoutConfig::default() }
    }

    /// An order of the elements in which every anchor comes before the
    /// subjects placed relative to it (Kahn's algorithm), or, when there is
    /// none, the elements caught in dependency cycles.
    pub fn topological_order(&self) -> (r: Result<Vec<String>, LayoutError>)
        ensures
            match r {
                Ok(order) => is_topological(relation_views(self.relations@), views(order@)),
                Err(e) => e matches LayoutError::CircularConstraint { cycle } && stuck(
                    relation_views(self.relations@),
                    views(cycle@).to_set(),
                ) && forall|o: Seq<Seq<char>>| !#[trigger] is_topological(relation_views(self.relations@), o),
            },
    {
        let ghost rs = relation_views(self.relations@);
        // Nodes and edges (anchor -> subject), by position among the names.
        let mut names: Vec<String> = Vec::new();
        let mut edges: Vec<(usize, usize)> = Vec::new();
        let mut k: usize = 0;
        while k < self.relations.len()
            invariant
                k <= self.relations@.len(),
                rs == relation_views(self.relations@),
                views(names@).no_duplicates(),
                views(names@).to_set() == graph_nodes(rs.subrange(0, k as int)),
                edges@.len() == k,
                forall|j: int| 0 <= j < k ==> (#[trigger] edges@[j]).0 < names@.len() && edges@[j].1 < names@.len()
                    && names@[edges@[j].0 as int]@ == rs[j].2 && names@[edges@[j].1 as int]@ == rs[j].0,
            decreases self.relations@.len() - k,
        {
            let ghost before = names@;
            let si = intern(&mut names, &self.relations[k].0);
            let ai = intern(&mut names, &self.relations[k].2);
            edges.push((ai, si));
            assert forall|j: int| 0 <= j < k + 1 implies (#[trigger] edges@[j]).0 < names@.len() && edges@[j].1 < names@.len()
                && names@[edges@[j].0 as int]@ == rs[j].2 && names@[edges@[j].1 as int]@ == rs[j].0 by {
                if j < k {
                    assert(names@[edges@[j].0 as int] == before[edges@[j].0 as int]);
                    assert(names@[edges@[j].1 as int] == before[edges@[j].1 as int]);
                }
            }
            assert(graph_nodes(rs.subrange(0, k + 1)) =~= graph_nodes(rs.subrange(0, k as int)).insert(rs[k as int].0).insert(rs[k as int].2)) by {
                let a = rs.subrange(0, k + 1);
                let b = rs.subrange(0, k as int);
                assert forall|n: Seq<char>| #[trigger] graph_nodes(a).contains(n) <==> graph_nodes(b).contains(n) || n == rs[k as int].0 || n == rs[k as int].2 by {
                    if graph_nodes(a).contains(n) {
                        let i = choose|i: int| #![trigger a[i]] 0 <= i < a.len() && (a[i].0 == n || a[i].2 == n);
                        if i < k {
                            assert(b[i] == a[i]);
                        }
                    }
                    if graph_nodes(b).contains(n) {
                        let i = choose|i: int| #![trigger b[i]] 0 <= i < b.len() && (b[i].0 == n || b[i].2 == n);
                        assert(a[i] == b[i]);
                    }
                    if n == rs[k as int].0 || n == rs[k as int].2 {
                        assert(a[k as int] == rs[k as int]);
                    }
                }
            }
            k = k + 1;
        }
        assert(rs.subrange(0, k as int) =~= rs);
        let n = names.len();
        let ghost es = edges@;
        // In-degrees.
        let mut indeg: Vec<usize> = Vec::new();
        let mut v: usize = 0;
        while v < n
            invariant
                v <= n,
                n == names@.len(),
                indeg@.len() == v,
                forall|x: int| 0 <= x < v ==> #[trigger] indeg@[x] == 0,
            decreases n - v,
        {
            indeg.push(0);
            v = v + 1;
        }
        let mut j: usize = 0;
        while j < edges.len()
            invariant
                j <= edges@.len(),
                es == edges@,
                n == names@.len(),
                indeg@.len() == n,
                forall|jj: int| 0 <= jj < es.len() ==> (#[trigger] es[jj]).0 < n && es[jj].1 < n,
                forall|x: int| 0 <= x < n ==> #[trigger] indeg@[x] == pending(es.subrange(0, j as int), Set::empty(), x),
            decreases edges@.len() - j,
        {
            let t = edges[j].1;
            proof {
                assert(es.subrange(0, j + 1).drop_last() =~= es.subrange(0, j as int));
                lemma_pending_le_len(es.subrange(0, j as int), Set::empty(), t as int);
            }
            indeg.set(t, indeg[t] + 1);
            j = j + 1;
        }
        assert(es.subrange(0, j as int) =~= es);
        // Kahn's algorithm.
        let mut queue: Vec<usize> = Vec::new();
        let mut v: usize = 0;
        while v < n
            invariant
                v <= n,
                n == names@.len(),
                indeg@.len() == n,
                queue@.no_duplicates(),
                forall|q: int| 0 <= q < queue@.len() ==> (#[trigger] queue@[q]) < v && indeg@[queue@[q] as int] == 0,
                forall|x: int| 0 <= x < v && indeg@[x] == 0 ==> queue@.contains(x as usize),
            decreases n - v,
        {
            if indeg[v] == 0 {
                let ghost before = queue@;
                queue.push(v);
                assert forall|x: int| 0 <= x < v + 1 && indeg@[x] == 0 implies queue@.contains(x as usize) by {
                    if x < v {
                        let q = choose|q: int| 0 <= q < before.len() && before[q] == x as usize;
                        assert(queue@[q] == x as usize);
                    } else {
                        assert(queue@[before.len() as int] == v);
                    }
                }
            }
            v = v + 1;
        }
        let mut result: Vec<usize> = Vec::new();
        let ghost mut done: Set<usize> = Set::empty();
        proof {
            lemma_distinct_below(queue@, n as int);
        }
        while queue.len() > 0
            invariant
                n == names@.len(),
                es == edges@,
                indeg@.len() == n,
                forall|jj: int| 0 <= jj < es.len() ==> (#[trigger] es[jj]).0 < n && es[jj].1 < n,
                forall|x: int| 0 <= x < n ==> #[trigger] indeg@[x] == pending(es, done, x),
                forall|x: usize| #[trigger] done.contains(x) <==> result@.contains(x),
                result@.no_duplicates(),
                queue@.no_duplicates(),
                forall|q: int| 0 <= q < queue@.len() ==> (#[trigger] queue@[q]) < n && indeg@[queue@[q] as int] == 0 && !result@.contains(queue@[q]),
                forall|q: int| 0 <= q < result@.len() ==> (#[trigger] result@[q]) < n,
                forall|x: int| 0 <= x < n && indeg@[x] == 0 ==> queue@.contains(x as usize) || result@.contains(x as usize),
                forall|jj: int, p: int| #![trigger result@[p], es[jj]] 0 <= jj < es.len() && 0 <= p < result@.len() && result@[p] == es[jj].1 ==> exists|q: int| #![trigger result@[q]] 0 <= q < p && result@[q] == es[jj].0,
                result@.len() + queue@.len() <= n,
            decreases n - result@.len(),
        {
            let ghost old_queue = queue@;
            let u = queue.pop().unwrap();
            assert(queue@ == old_queue.drop_last() && u == old_queue.last());
            let ghost old_done = done;
            let ghost old_result = result@;
            assert(old_queue[old_queue.len() - 1] == u);
            assert(!old_done.contains(u));
            result.push(u);
            proof {
                done = done.insert(u);
                assert forall|x: usize| #[trigger] done.contains(x) <==> result@.contains(x) by {
                    if result@.contains(x) && !old_result.contains(x) {
                        let q = choose|q: int| 0 <= q < result@.len() && result@[q] == x;
                        if q < old_result.len() {
                            assert(old_result[q] == x);
                        }
                    }
                    if old_result.contains(x) {
                        let q = choose|q: int| 0 <= q < old_result.len() && old_result[q] == x;
                        assert(result@[q] == x);
                    }
                    if x == u {
                        assert(result@[old_result.len() as int] == x);
                    }
                }
                assert forall|q: int| 0 <= q < queue@.len() implies (#[trigger] queue@[q]) != u by {
                    assert(queue@[q] == old_queue[q]);
                }
                assert(result@.no_duplicates()) by {
                    assert forall|a: int, b: int| 0 <= a < result@.len() && 0 <= b < result@.len() && a != b implies result@[a] != result@[b] by {
                        if a < old_result.len() && b < old_result.len() {
                            assert(result@[a] == old_result[a] && result@[b] == old_result[b]);
                        } else if a < old_result.len() {
                            assert(result@[a] == old_result[a]);
                            assert(old_result.contains(old_result[a]));
                        } else {
                            assert(result@[b] == old_result[b]);
                            assert(old_result.contains(old_result[b]));
                        }
                    }
                }
                assert forall|x: int| 0 <= x < n && indeg@[x] == 0 && edges_between(es, u as int, x) == edges_between(es.subrange(0, 0), u as int, x) implies queue@.contains(x as usize) || result@.contains(x as usize) by {
                    if old_queue.contains(x as usize) {
                        let q = choose|q: int| 0 <= q < old_queue.len() && old_queue[q] == x as usize;
                        if q < old_queue.len() - 1 {
                            assert(queue@[q] == x as usize);
                        } else {
                            assert(result@[old_result.len() as int] == x as usize);
                        }
                    } else {
                        let q = choose|q: int| 0 <= q < old_result.len() && old_result[q] == x as usize;
                        assert(result@[q] == x as usize);
                    }
                }
            }
            // Every edge into u comes from an element already placed.
            assert forall|jj: int, p: int| #![trigger result@[p], es[jj]] 0 <= jj < es.len() && 0 <= p < result@.len() && result@[p] == es[jj].1 implies exists|q: int| #![trigger result@[q]] 0 <= q < p && result@[q] == es[jj].0 by {
                if p < old_result.len() {
                    assert(result@[p] == old_result[p]);
                    let q = choose|q: int| 0 <= q < p && #[trigger] old_result[q] == es[jj].0;
                    assert(result@[q] == old_result[q]);
                } else {
                    lemma_pending_zero(es, old_done, u as int, jj);
                    assert(old_done.contains(es[jj].0));
                    assert(old_result.contains(es[jj].0));
                    let q = choose|q: int| 0 <= q < old_result.len() && old_result[q] == es[jj].0;
                    assert(result@[q] == old_result[q]);
                }
            }
            let mut j: usize = 0;
            while j < edges.len()
                invariant
                    j <= edges@.len(),
                    es == edges@,
                    n == names@.len(),
                    indeg@.len() == n,
                    u < n,
                    done == old_done.insert(u),
                    !old_done.contains(u),
                    forall|jj: int| 0 <= jj < es.len() ==> (#[trigger] es[jj]).0 < n && es[jj].1 < n,
                    forall|x: int| 0 <= x < n ==> #[trigger] indeg@[x] + edges_between(es.subrange(0, j as int), u as int, x) == pending(es, old_done, x),
                    queue@.no_duplicates(),
                    forall|q: int| 0 <= q < queue@.len() ==> (#[trigger] queue@[q]) < n && indeg@[queue@[q] as int] == 0 && !result@.contains(queue@[q]),
                    forall|x: int| 0 <= x < n && indeg@[x] == 0 && edges_between(es, u as int, x) == edges_between(es.subrange(0, j as int), u as int, x) ==> queue@.contains(x as usize) || result@.contains(x as usize),
                    forall|x: usize| #[trigger] done.contains(x) <==> result@.contains(x),
                    result@.len() + queue@.len() <= n,
                    forall|q: int| 0 <= q < result@.len() ==> (#[trigger] result@[q]) < n,
                    result@.no_duplicates(),
                    result@.len() > 0 && result@[result@.len() - 1] == u,
                    forall|jj: int, p: int| #![trigger result@[p], es[jj]] 0 <= jj < es.len() && 0 <= p < result@.len() && result@[p] == es[jj].1 ==> exists|q: int| #![trigger result@[q]] 0 <= q < p && result@[q] == es[jj].0,
                decreases edges@.len() - j,
            {
                let (a, t) = edges[j];
                proof {
                    lemma_between_prefix(es, u as int, t as int, j as int);
                    assert forall|x: int| 0 <= x < n && x != t implies #[trigger] edges_between(es.subrange(0, j + 1), u as int, x) == edges_between(es.subrange(0, j as int), u as int, x) by {
                        lemma_between_prefix(es, u as int, x, j as int);
                    }
                }
                if a == u {
                    proof {
                        lemma_between_le_pending(es, old_done, u, t as int);
                    }
                    let d = indeg[t] - 1;
                    indeg.set(t, d);
                    if d == 0 {
                        // t was waiting on u: no edge into an element already placed comes from u.
                        assert(!result@.contains(t)) by {
                            if result@.contains(t) {
                                let p = choose|p: int| 0 <= p < result@.len() && result@[p] == t;
                                lemma_not_placed_before_source(es, result@, u, t, j as int, p);
                                assert(result@[p] != t);
                            }
                        }
                        assert(!queue@.contains(t));
                        let ghost qb = queue@;
                        proof {
                            let c = result@ + qb;
                            assert(c.no_duplicates()) by {
                                assert forall|a2: int, b2: int| 0 <= a2 < c.len() && 0 <= b2 < c.len() && a2 != b2 implies c[a2] != c[b2] by {
                                    if a2 < result@.len() && b2 < result@.len() {
                                    } else if a2 >= result@.len() && b2 >= result@.len() {
                                        assert(c[a2] == qb[a2 - result@.len()] && c[b2] == qb[b2 - result@.len()]);
                                    } else if a2 < result@.len() {
                                        assert(c[b2] == qb[b2 - result@.len()]);
                                        assert(!result@.contains(qb[b2 - result@.len()]));
                                        assert(result@.contains(c[a2]));
                                    } else {
                                        assert(c[a2] == qb[a2 - result@.len()]);
                                        assert(!result@.contains(qb[a2 - result@.len()]));
                                        assert(result@.contains(c[b2]));
                                    }
                                }
                            }
                            assert forall|i: int| 0 <= i < c.len() implies (#[trigger] c[i]) < n by {
                                if i >= result@.len() {
                                    assert(c[i] == qb[i - result@.len()]);
                                }
                            }
                            assert(!c.contains(t)) by {
                                if c.contains(t) {
                                    let i = choose|i: int| 0 <= i < c.len() && c[i] == t;
                                    if i < result@.len() {
                                        assert(result@.contains(t));
                                    } else {
                                        assert(qb[i - result@.len()] == t);
                                        assert(qb.contains(t));
                                    }
                                }
                            }
                            lemma_distinct_below_missing(c, n as int, t);
                        }
                        queue.push(t);
                        assert(queue@.no_duplicates()) by {
                            assert forall|a2: int, b2: int| 0 <= a2 < queue@.len() && 0 <= b2 < queue@.len() && a2 != b2 implies queue@[a2] != queue@[b2] by {
                                if a2 < qb.len() && b2 < qb.len() {
                                    assert(queue@[a2] == qb[a2] && queue@[b2] == qb[b2]);
                                } else if a2 < qb.len() {
                                    assert(queue@[a2] == qb[a2]);
                                    assert(qb.contains(qb[a2]));
                                } else {
                                    assert(queue@[b2] == qb[b2]);
                                    assert(qb.contains(qb[b2]));
                                }
                            }
                        }
                        assert forall|y: usize| qb.contains(y) implies #[trigger] queue@.contains(y) by {
                            let q = choose|q: int| 0 <= q < qb.len() && qb[q] == y;
                            assert(queue@[q] == y);
                        }
                        assert(queue@.contains(t)) by {
                            assert(queue@[qb.len() as int] == t);
                        }
                    }
                }
                j = j + 1;
            }
            assert(es.subrange(0, j as int) =~= es);
            assert forall|x: int| 0 <= x < n implies #[trigger] indeg@[x] == pending(es, done, x) by {
                lemma_pending_done(es, old_done, u, x);
            }
            assert(result@.no_duplicates());
        }
        // Placed elements, in order; or the ones left waiting.
        if result.len() == n {
            let mut order: Vec<String> = Vec::new();
            let mut p: usize = 0;
            while p < result.len()
                invariant
                    p <= result@.len(),
                    result@.len() == n,
                    n == names@.len(),
                    forall|q: int| 0 <= q < result@.len() ==> (#[trigger] result@[q]) < n,
                    order@.len() == p,
                    forall|q: int| 0 <= q < p ==> #[trigger] order@[q]@ == names@[result@[q] as int]@,
                decreases result@.len() - p,
            {
                let ghost ob = order@;
                order.push(names[result[p]].clone());
                assert forall|q: int| 0 <= q < p + 1 implies #[trigger] order@[q]@ == names@[result@[q] as int]@ by {
                    if q < p {
                        assert(order@[q] == ob[q]);
                    }
                }
                p = p + 1;
            }
            proof {
                lemma_order_valid(rs, names@, es, result@, order@);
            }
            Ok(order)
        } else {
            let mut cycle: Vec<String> = Vec::new();
            let ghost mut ids: Seq<int> = Seq::empty();
            let mut x: usize = 0;
            while x < n
                invariant
                    x <= n,
                    n == names@.len(),
                    indeg@.len() == n,
                    ids.len() == cycle@.len(),
                    forall|c: int| 0 <= c < cycle@.len() ==> 0 <= #[trigger] ids[c] < x && indeg@[ids[c]] > 0 && cycle@[c]@ == names@[ids[c]]@,
                    forall|y: int| 0 <= y < x && indeg@[y] > 0 ==> views(cycle@).contains(#[trigger] names@[y]@),
                decreases n - x,
            {
                if indeg[x] > 0 {
                    let ghost before = cycle@;
                    cycle.push(names[x].clone());
                    proof {
                        ids = ids.push(x as int);
                    }
                    assert forall|y: int| 0 <= y < x + 1 && indeg@[y] > 0 implies views(cycle@).contains(#[trigger] names@[y]@) by {
                        if y < x {
                            let c = choose|c: int| 0 <= c < views(before).len() && views(before)[c] == names@[y]@;
                            assert(views(cycle@)[c] == names@[y]@);
                        } else {
                            assert(views(cycle@)[before.len() as int] == names@[y]@);
                        }
                    }
                    assert forall|c: int| 0 <= c < cycle@.len() implies 0 <= #[trigger] ids[c] < x + 1 && indeg@[ids[c]] > 0 && cycle@[c]@ == names@[ids[c]]@ by {
                        if c < before.len() {
                            assert(cycle@[c] == before[c]);
                        }
                    }
                }
                x = x + 1;
            }
            proof {
                lemma_cycle_stuck(rs, names@, es, indeg@, result@, done, cycle@, ids);
                assert forall|o: Seq<Seq<char>>| !#[trigger] is_topological(rs, o) by {
                    lemma_stuck_no_order(rs, views(cycle@).to_set(), o);
                }
            }
            Err(LayoutError::circular(cycle))
        }
    }
}

} // verus!
