//! Lint rules that read the document: warnings about constructs that parse
//! and lay out but are likely mistakes.

use vstd::prelude::*;
use crate::ast::{
    ConnectionDecl, ConstraintExpr, PropertyRef, ConstraintProperty, Document, Identifier, KeyframeDecl,
    KeyframeOp, LayoutDecl, LayoutType, Spanned, Statement, StyleKey, StyleModifier, StyleValue,
};
use crate::collections::{NameMap, NameSet};
use crate::num::{magnitude_text, num_text, Num};
use crate::strings::{
    occurs_at, chars_occur_at, chars_eq, chars_find, chars_of, contains_seq, decimal, find_first, join_seqs, join_strings,
    push_char, push_decimal, seq_lt, str_contains, str_eq, string_of_range, text_le, trim_quotes,
    trim_quotes_exec, usize_to_string, views, is_ascii_alpha, lower_seq, chars_to_lower, char_is_ascii_alpha,
};
use super::{dedup, insert_id};
use super::text::{is_supported_tag, supported_tags};

verus! {

/// Category of lint defect.
#[derive(Debug, Clone, Copy, PartialEq, Eq, Structural, Hash)]
pub enum LintCategory {
    Overlap,
    Containment,
    Label,
    Connection,
    Alignment,
    RedundantConstant,
    ReducibleBend,
    MissingAnchor,
    Contrast,
    SteepDirect,
    CrowdedLayout,
    OverConstrained,
    LabelOverflow,
    UnknownModifier,
    OverriddenConstraint,
}

/// A lint warning about a layout defect.
#[derive(Debug)]
pub struct LintWarning {
    pub category: LintCategory,
    pub message: String,
    /// Keyframes in which this defect occurs. Empty means the defect is
    /// frame-independent (no keyframes, or present in every frame).
    pub frames: Vec<String>,
    /// The two element names this warning is about, sorted, when it is about
    /// a pair.
    pub pair: Option<(String, String)>,
}

/// The kebab-case name of a category, as printed.
pub open spec fn category_name(c: LintCategory) -> Seq<char> {
    match c {
        LintCategory::Overlap => "overlap"@,
        LintCategory::Containment => "containment"@,
        LintCategory::Label => "label"@,
        LintCategory::Connection => "connection"@,
        LintCategory::Alignment => "alignment"@,
        LintCategory::RedundantConstant => "redundant-constant"@,
        LintCategory::ReducibleBend => "reducible-bend"@,
        LintCategory::MissingAnchor => "missing-anchor"@,
        LintCategory::Contrast => "contrast"@,
        LintCategory::SteepDirect => "steep-direct"@,
        LintCategory::CrowdedLayout => "crowded-layout"@,
        LintCategory::OverConstrained => "over-constrained"@,
        LintCategory::LabelOverflow => "label-overflow"@,
        LintCategory::UnknownModifier => "unknown-modifier"@,
        LintCategory::OverriddenConstraint => "overridden-constraint"@,
    }
}

/// Every category, in the order they are documented.
pub open spec fn all_categories() -> Seq<LintCategory> {
    seq![
        LintCategory::Overlap,
        LintCategory::Containment,
        LintCategory::Label,
        LintCategory::Connection,
        LintCategory::Alignment,
        LintCategory::RedundantConstant,
        LintCategory::ReducibleBend,
        LintCategory::MissingAnchor,
        LintCategory::Contrast,
        LintCategory::SteepDirect,
        LintCategory::CrowdedLayout,
        LintCategory::OverConstrained,
        LintCategory::LabelOverflow,
        LintCategory::UnknownModifier,
        LintCategory::OverriddenConstraint,
    ]
}

/// The names of all categories, in order.
pub open spec fn all_category_names() -> Seq<Seq<char>> {
    all_categories().map_values(|c: LintCategory| category_name(c))
}

/// Every category is listed.
pub proof fn lemma_all_categories_complete(c: LintCategory)
    ensures
        all_categories().contains(c),
{
    let a = all_categories();
    match c {
        LintCategory::Overlap => assert(a[0] == c),
        LintCategory::Containment => assert(a[1] == c),
        LintCategory::Label => assert(a[2] == c),
        LintCategory::Connection => assert(a[3] == c),
        LintCategory::Alignment => assert(a[4] == c),
        LintCategory::RedundantConstant => assert(a[5] == c),
        LintCategory::ReducibleBend => assert(a[6] == c),
        LintCategory::MissingAnchor => assert(a[7] == c),
        LintCategory::Contrast => assert(a[8] == c),
        LintCategory::SteepDirect => assert(a[9] == c),
        LintCategory::CrowdedLayout => assert(a[10] == c),
        LintCategory::OverConstrained => assert(a[11] == c),
        LintCategory::LabelOverflow => assert(a[12] == c),
        LintCategory::UnknownModifier => assert(a[13] == c),
        LintCategory::OverriddenConstraint => assert(a[14] == c),
    }
}

/// Different categories have different names.
pub proof fn lemma_category_names_distinct(a: LintCategory, b: LintCategory)
    ensures
        category_name(a) == category_name(b) ==> a == b,
{
    reveal_strlit("overlap");
    reveal_strlit("containment");
    reveal_strlit("label");
    reveal_strlit("connection");
    reveal_strlit("alignment");
    reveal_strlit("redundant-constant");
    reveal_strlit("reducible-bend");
    reveal_strlit("missing-anchor");
    reveal_strlit("contrast");
    reveal_strlit("steep-direct");
    reveal_strlit("crowded-layout");
    reveal_strlit("over-constrained");
    reveal_strlit("label-overflow");
    reveal_strlit("unknown-modifier");
    reveal_strlit("overridden-constraint");
    if category_name(a) == category_name(b) {
        assert(category_name(a).len() == category_name(b).len());
        assert(category_name(a)[0] == category_name(b)[0]);
        assert(category_name(a)[1] == category_name(b)[1]);
    }
}

impl LintCategory {
    /// The category's kebab-case name (what `Display` prints).
    pub fn name(&self) -> (r: String)
        ensures
            r@ == category_name(*self),
    {
        let s: &str = match self {
            LintCategory::Overlap => "overlap",
            LintCategory::Containment => "containment",
            LintCategory::Label => "label",
            LintCategory::Connection => "connection",
            LintCategory::Alignment => "alignment",
            LintCategory::RedundantConstant => "redundant-constant",
            LintCategory::ReducibleBend => "reducible-bend",
            LintCategory::MissingAnchor => "missing-anchor",
            LintCategory::Contrast => "contrast",
            LintCategory::SteepDirect => "steep-direct",
            LintCategory::CrowdedLayout => "crowded-layout",
            LintCategory::OverConstrained => "over-constrained",
            LintCategory::LabelOverflow => "label-overflow",
            LintCategory::UnknownModifier => "unknown-modifier",
            LintCategory::OverriddenConstraint => "overridden-constraint",
        };
        String::from_str(s)
    }

    /// The same text as `name`; what `to_string` gives.
    pub fn to_string(&self) -> (r: String)
        ensures
            r@ == category_name(*self),
    {
        self.name()
    }

    /// Every category, in the order they are documented.
    pub fn all() -> (r: Vec<LintCategory>)
        ensures
            r@ == all_categories(),
    {
        let r = vec![
            LintCategory::Overlap,
            LintCategory::Containment,
            LintCategory::Label,
            LintCategory::Connection,
            LintCategory::Alignment,
            LintCategory::RedundantConstant,
            LintCategory::ReducibleBend,
            LintCategory::MissingAnchor,
            LintCategory::Contrast,
            LintCategory::SteepDirect,
            LintCategory::CrowdedLayout,
            LintCategory::OverConstrained,
            LintCategory::LabelOverflow,
            LintCategory::UnknownModifier,
            LintCategory::OverriddenConstraint,
        ];
        assert(r@ =~= all_categories());
        r
    }

    /// Parse a category from its kebab-case name: the category with that
    /// name, or `None` when no category has it.
    pub fn parse(name: &str) -> (r: Option<LintCategory>)
        ensures
            match r {
                Some(c) => category_name(c) == name@,
                None => forall|c: LintCategory| category_name(c) != name@,
            },
    {
        let all = LintCategory::all();
        let mut i: usize = 0;
        while i < all.len()
            invariant
                i <= all@.len(),
                all@ == all_categories(),
                forall|j: int| 0 <= j < i ==> category_name(#[trigger] all@[j]) != name@,
            decreases all@.len() - i,
        {
            let n = all[i].name();
            if str_eq(n.as_str(), name) {
                return Some(all[i]);
            }
            i = i + 1;
        }
        assert forall|c: LintCategory| category_name(c) != name@ by {
            lemma_all_categories_complete(c);
            let j = choose|j: int| 0 <= j < all@.len() && all@[j] == c;
            assert(category_name(all@[j]) != name@);
        }
        None
    }

    /// Comma-separated list of all category names, for error messages.
    pub fn all_names() -> (r: String)
        ensures
            r@ == join_seqs(all_category_names(), ", "@),
    {
        let all = LintCategory::all();
        let mut names: Vec<String> = Vec::new();
        let mut i: usize = 0;
        while i < all.len()
            invariant
                i <= all@.len(),
                all@ == all_categories(),
                views(names@) == all_category_names().subrange(0, i as int),
            decreases all@.len() - i,
        {
            let n = all[i].name();
            let ghost before = names@;
            names.push(n);
            i = i + 1;
            assert(views(names@) =~= all_category_names().subrange(0, i as int)) by {
                assert(views(names@) =~= views(before).push(n@));
            }
        }
        assert(all_category_names().subrange(0, i as int) =~= all_category_names());
        join_strings(names.as_slice(), ", ")
    }
}

/// Parsing a category's name gives the category back.
pub proof fn lemma_parse_name_roundtrip(c: LintCategory, r: Option<LintCategory>)
    requires
        r is Some ==> category_name(r->0) == category_name(c),
        r is None ==> forall|d: LintCategory| #[trigger] category_name(d) != category_name(c),
    ensures
        r == Some(c),
{
    if r is Some {
        lemma_category_names_distinct(r->0, c);
    } else {
        let n = category_name(c);
        assert(n.len() == category_name(c).len());
        assert(false);
    }
}

/// The frame annotation of a warning: empty for none, the one frame, up to
/// three frames, or the first three and how many more.
pub open spec fn frame_suffix_text(frames: Seq<Seq<char>>) -> Seq<char> {
    if frames.len() == 0 {
        Seq::empty()
    } else if frames.len() == 1 {
        " [frame: "@ + frames[0] + "]"@
    } else if frames.len() <= 3 {
        " [frames: "@ + join_seqs(frames, ", "@) + "]"@
    } else {
        " [frames: "@ + join_seqs(frames.take(3), ", "@) + ", +"@ + decimal((frames.len() - 3) as nat)
            + " more]"@
    }
}

impl LintWarning {
    /// Human-readable frame annotation, e.g. ` [frames: step-2, step-3]`.
    /// Empty when the warning is frame-independent.
    pub fn frame_suffix(&self) -> (r: String)
        ensures
            r@ == frame_suffix_text(views(self.frames@)),
    {
        let n = self.frames.len();
        let ghost fs = views(self.frames@);
        let mut r = String::new();
        if n == 0 {
            assert(r@ =~= frame_suffix_text(fs));
        } else if n == 1 {
            r.append(" [frame: ");
            r.append(self.frames[0].as_str());
            r.append("]");
        } else if n <= 3 {
            r.append(" [frames: ");
            let j = join_strings(self.frames.as_slice(), ", ");
            r.append(j.as_str());
            r.append("]");
        } else {
            let mut first: Vec<String> = Vec::new();
            first.push(self.frames[0].clone());
            first.push(self.frames[1].clone());
            first.push(self.frames[2].clone());
            assert(views(first@) =~= fs.take(3));
            r.append(" [frames: ");
            let j = join_strings(first.as_slice(), ", ");
            r.append(j.as_str());
            r.append(", +");
            push_decimal(&mut r, (n - 3) as u64);
            r.append(" more]");
        }
        r
    }
}

// ---------------------------------------------------------------------------
// Warnings appended by a check
// ---------------------------------------------------------------------------

/// A frame-independent warning of category `cat` with message `msg`.
pub open spec fn plain_warning(w: LintWarning, cat: LintCategory, msg: Seq<char>) -> bool {
    &&& w.category == cat
    &&& w.message@ == msg
    &&& w.frames@.len() == 0
    &&& w.pair is None
}

/// `new` is `old` followed by one plain warning of category `cat` per message.
pub open spec fn appended(old: Seq<LintWarning>, new: Seq<LintWarning>, cat: LintCategory, msgs: Seq<Seq<char>>) -> bool {
    &&& new.len() == old.len() + msgs.len()
    &&& new.subrange(0, old.len() as int) == old
    &&& forall|j: int| 0 <= j < msgs.len() ==> plain_warning(#[trigger] new[old.len() + j], cat, msgs[j])
}

proof fn lemma_appended_push(old: Seq<LintWarning>, new: Seq<LintWarning>, cat: LintCategory, msgs: Seq<Seq<char>>, w: LintWarning, msg: Seq<char>)
    requires
        appended(old, new, cat, msgs),
        plain_warning(w, cat, msg),
    ensures
        appended(old, new.push(w), cat, msgs.push(msg)),
{
    let n2 = new.push(w);
    assert(n2.subrange(0, old.len() as int) =~= new.subrange(0, old.len() as int));
    assert forall|j: int| 0 <= j < msgs.push(msg).len() implies plain_warning(#[trigger] n2[old.len() + j], cat, msgs.push(msg)[j]) by {
        if j < msgs.len() {
            assert(n2[old.len() + j] == new[old.len() + j]);
        }
    }
}

proof fn lemma_appended_concat(a: Seq<LintWarning>, b: Seq<LintWarning>, c: Seq<LintWarning>, cat: LintCategory, m1: Seq<Seq<char>>, m2: Seq<Seq<char>>)
    requires
        appended(a, b, cat, m1),
        appended(b, c, cat, m2),
    ensures
        appended(a, c, cat, m1 + m2),
{
    assert(c.subrange(0, a.len() as int) =~= c.subrange(0, b.len() as int).subrange(0, a.len() as int));
    assert forall|j: int| 0 <= j < (m1 + m2).len() implies plain_warning(#[trigger] c[a.len() + j], cat, (m1 + m2)[j]) by {
        if j < m1.len() {
            assert(c[a.len() + j] == c.subrange(0, b.len() as int)[a.len() + j]);
            assert(b[a.len() + j] == c[a.len() + j]);
        } else {
            let k = j - m1.len();
            assert(c[b.len() + k] == c[a.len() + j]);
        }
    }
}

proof fn lemma_appended_nothing(old: Seq<LintWarning>, cat: LintCategory)
    ensures
        appended(old, old, cat, Seq::empty()),
{
    assert(old.subrange(0, old.len() as int) =~= old);
}

// ---------------------------------------------------------------------------
// Redundant constants
// ---------------------------------------------------------------------------

/// How a property is spelled in messages.
pub open spec fn property_name(p: ConstraintProperty) -> Seq<char> {
    match p {
        ConstraintProperty::X => "x"@,
        ConstraintProperty::Y => "y"@,
        ConstraintProperty::Width => "width"@,
        ConstraintProperty::Height => "height"@,
        ConstraintProperty::Left => "left"@,
        ConstraintProperty::Right => "right"@,
        ConstraintProperty::Top => "top"@,
        ConstraintProperty::Bottom => "bottom"@,
        ConstraintProperty::CenterX => "center_x"@,
        ConstraintProperty::CenterY => "center_y"@,
        ConstraintProperty::Center => "center"@,
        ConstraintProperty::AnchorX(n) => n@,
        ConstraintProperty::AnchorY(n) => n@,
        ConstraintProperty::Anchor(n) => n@,
    }
}

/// Display name for a constraint property (for warning messages).
fn property_display_name(prop: &ConstraintProperty) -> (r: &str)
    ensures
        r@ == property_name(*prop),
{
    match prop {
        ConstraintProperty::X => "x",
        ConstraintProperty::Y => "y",
        ConstraintProperty::Width => "width",
        ConstraintProperty::Height => "height",
        ConstraintProperty::Left => "left",
        ConstraintProperty::Right => "right",
        ConstraintProperty::Top => "top",
        ConstraintProperty::Bottom => "bottom",
        ConstraintProperty::CenterX => "center_x",
        ConstraintProperty::CenterY => "center_y",
        ConstraintProperty::Center => "center",
        ConstraintProperty::AnchorX(name) => name.as_str(),
        ConstraintProperty::AnchorY(name) => name.as_str(),
        ConstraintProperty::Anchor(name) => name.as_str(),
    }
}

/// The `constrain x.p = value` statements of a statement (element path, property
/// name, value), the composite `center` excepted.
pub open spec fn stmt_constants(s: Statement) -> Seq<(Seq<char>, Seq<char>, Num)>
    decreases s,
{
    match s {
        Statement::Constrain(c) => match c.expr {
            ConstraintExpr::Constant { left, value } => if left.property.node is Center {
                Seq::empty()
            } else {
                seq![(left.element.node.path_text(), property_name(left.property.node), value)]
            },
            _ => Seq::empty(),
        },
        Statement::Layout(l) => stmts_constants(l.children@),
        Statement::Group(g) => stmts_constants(g.children@),
        _ => Seq::empty(),
    }
}

/// The constants of a list of statements, in document order.
pub open spec fn stmts_constants(ss: Seq<Spanned<Statement>>) -> Seq<(Seq<char>, Seq<char>, Num)>
    decreases ss,
{
    if ss.len() == 0 {
        Seq::empty()
    } else {
        stmts_constants(ss.subrange(0, ss.len() - 1)) + stmt_constants(ss[ss.len() - 1].node)
    }
}

/// The views of collected constants.
pub open spec fn const_views(v: Seq<(String, String, Num)>) -> Seq<(Seq<char>, Seq<char>, Num)> {
    v.map_values(|t: (String, String, Num)| (t.0@, t.1@, t.2))
}

fn collect_constants_in_statement(stmt: &Statement, out: &mut Vec<(String, String, Num)>)
    ensures
        const_views(final(out)@) == const_views(old(out)@) + stmt_constants(*stmt),
    decreases stmt, 1nat,
{
    match stmt {
        Statement::Constrain(c) => {
            match &c.expr {
                ConstraintExpr::Constant { left, value } => {
                    if let ConstraintProperty::Center = left.property.node {
                        assert(const_views(out@) =~= const_views(old(out)@) + stmt_constants(*stmt));
                    } else {
                        let elem_name = left.element.node.to_text();
                        let prop_name = String::from_str(property_display_name(&left.property.node));
                        out.push((elem_name, prop_name, *value));
                        assert(const_views(out@) =~= const_views(old(out)@) + stmt_constants(*stmt));
                    }
                },
                _ => {
                    assert(const_views(out@) =~= const_views(old(out)@) + stmt_constants(*stmt));
                },
            }
        },
        Statement::Layout(l) => {
            collect_constant_constraints(&l.children, out);
        },
        Statement::Group(g) => {
            collect_constant_constraints(&g.children, out);
        },
        _ => {
            assert(const_views(out@) =~= const_views(old(out)@) + stmt_constants(*stmt));
        },
    }
}

/// Collect the `constrain x.p = value` statements, recursing into groups and layouts.
fn collect_constant_constraints(stmts: &Vec<Spanned<Statement>>, out: &mut Vec<(String, String, Num)>)
    ensures
        const_views(final(out)@) == const_views(old(out)@) + stmts_constants(stmts@),
    decreases stmts, 0nat,
{
    let mut i: usize = 0;
    while i < stmts.len()
        invariant
            i <= stmts@.len(),
            const_views(out@) == const_views(old(out)@) + stmts_constants(stmts@.subrange(0, i as int)),
        decreases stmts@.len() - i,
    {
        let ghost sub = stmts@.subrange(0, i + 1);
        assert(sub.subrange(0, sub.len() - 1) =~= stmts@.subrange(0, i as int));
        assert(sub[sub.len() - 1] == stmts@[i as int]);
        assert(decreases_to!(stmts => stmts@[i as int].node));
        collect_constants_in_statement(&stmts[i].node, out);
        i = i + 1;
    }
    assert(stmts@.subrange(0, i as int) =~= stmts@);
}

/// The (property, value) of a constant.
pub open spec fn const_key(c: (Seq<char>, Seq<char>, Num)) -> (Seq<char>, Num) {
    (c.1, c.2)
}

/// The distinct (property, value) pairs, in order of first occurrence.
pub open spec fn group_keys(cs: Seq<(Seq<char>, Seq<char>, Num)>) -> Seq<(Seq<char>, Num)>
    decreases cs.len(),
{
    if cs.len() == 0 {
        Seq::empty()
    } else {
        let g = group_keys(cs.drop_last());
        if g.contains(const_key(cs.last())) {
            g
        } else {
            g.push(const_key(cs.last()))
        }
    }
}

/// The elements that set the pair `k`, in order (repeats kept).
pub open spec fn group_members(cs: Seq<(Seq<char>, Seq<char>, Num)>, k: (Seq<char>, Num)) -> Seq<Seq<char>>
    decreases cs.len(),
{
    if cs.len() == 0 {
        Seq::empty()
    } else {
        group_members(cs.drop_last(), k) + if const_key(cs.last()) == k {
            seq![cs.last().0]
        } else {
            Seq::empty()
        }
    }
}

/// The message for elements `unique` (two or more) that set `prop` to `value`.
pub open spec fn redundant_message(unique: Seq<Seq<char>>, prop: Seq<char>, value: Num) -> Seq<char> {
    if unique.len() == 2 {
        "consider \"constrain "@ + unique[1] + "."@ + prop + " = "@ + unique[0] + "."@ + prop
            + "\" instead of repeating the constant "@ + num_text(value)
    } else {
        decimal(unique.len()) + " elements ("@ + join_seqs(unique.drop_first(), ", "@) + ") set ."@ + prop
            + " to the same constant "@ + num_text(value) + "; consider relating them to "@ + unique[0]
            + "."@ + prop
    }
}

/// One message per pair set by two or more distinct elements, in order of the pairs.
pub open spec fn redundant_messages(keys: Seq<(Seq<char>, Num)>, cs: Seq<(Seq<char>, Seq<char>, Num)>) -> Seq<Seq<char>>
    decreases keys.len(),
{
    if keys.len() == 0 {
        Seq::empty()
    } else {
        let prev = redundant_messages(keys.drop_last(), cs);
        let k = keys.last();
        let u = dedup(group_members(cs, k));
        if u.len() >= 2 {
            prev.push(redundant_message(u, k.0, k.1))
        } else {
            prev
        }
    }
}

proof fn lemma_group_keys_distinct(cs: Seq<(Seq<char>, Seq<char>, Num)>)
    ensures
        group_keys(cs).no_duplicates(),
    decreases cs.len(),
{
    if cs.len() > 0 {
        lemma_group_keys_distinct(cs.drop_last());
    }
}

proof fn lemma_members_of_absent_key(cs: Seq<(Seq<char>, Seq<char>, Num)>, k: (Seq<char>, Num))
    requires
        !group_keys(cs).contains(k),
    ensures
        group_members(cs, k) == Seq::<Seq<char>>::empty(),
    decreases cs.len(),
{
    if cs.len() > 0 {
        let g = group_keys(cs.drop_last());
        if g.contains(k) {
            let q = choose|q: int| 0 <= q < g.len() && g[q] == k;
            if !g.contains(const_key(cs.last())) {
                assert(g.push(const_key(cs.last()))[q] == k);
            }
        }
        if !g.contains(const_key(cs.last())) {
            assert(g.push(const_key(cs.last()))[g.len() as int] == const_key(cs.last()));
        }
        lemma_members_of_absent_key(cs.drop_last(), k);
        assert(group_members(cs, k) =~= Seq::<Seq<char>>::empty());
    }
}

/// The message for a group of two or more distinct elements.
fn redundant_message_exec(unique: &Vec<String>, prop: &String, value: Num) -> (r: String)
    requires
        unique@.len() >= 2,
    ensures
        r@ == redundant_message(views(unique@), prop@, value),
{
    let ghost u = views(unique@);
    let mut msg = String::new();
    if unique.len() == 2 {
        msg.append("consider \"constrain ");
        msg.append(unique[1].as_str());
        msg.append(".");
        msg.append(prop.as_str());
        msg.append(" = ");
        msg.append(unique[0].as_str());
        msg.append(".");
        msg.append(prop.as_str());
        msg.append("\" instead of repeating the constant ");
        value.push_text(&mut msg);
        assert(msg@ =~= redundant_message(u, prop@, value));
    } else {
        let mut rest: Vec<String> = Vec::new();
        let mut i: usize = 1;
        while i < unique.len()
            invariant
                1 <= i <= unique@.len(),
                u == views(unique@),
                views(rest@) == u.subrange(1, i as int),
            decreases unique@.len() - i,
        {
            let ghost before = rest@;
            rest.push(unique[i].clone());
            i = i + 1;
            assert(views(rest@) =~= u.subrange(1, i as int)) by {
                assert(views(rest@) =~= views(before).push(u[i - 1]));
            }
        }
        assert(u.subrange(1, i as int) =~= u.drop_first());
        push_decimal(&mut msg, unique.len() as u64);
        msg.append(" elements (");
        let joined = join_strings(rest.as_slice(), ", ");
        msg.append(joined.as_str());
        msg.append(") set .");
        msg.append(prop.as_str());
        msg.append(" to the same constant ");
        value.push_text(&mut msg);
        msg.append("; consider relating them to ");
        msg.append(unique[0].as_str());
        msg.append(".");
        msg.append(prop.as_str());
        assert(msg@ =~= redundant_message(u, prop@, value));
    }
    msg
}

/// Warn when two or more distinct elements set the same property to the same
/// constant: one warning per (property, value), in order of first occurrence.
pub fn check_redundant_constants(doc: &Document, warnings: &mut Vec<LintWarning>)
    ensures
        appended(
            old(warnings)@,
            final(warnings)@,
            LintCategory::RedundantConstant,
            redundant_messages(
                group_keys(stmts_constants(doc.statements@)),
                stmts_constants(doc.statements@),
            ),
        ),
{
    let mut constants: Vec<(String, String, Num)> = Vec::new();
    collect_constant_constraints(&doc.statements, &mut constants);
    let ghost cs = stmts_constants(doc.statements@);
    assert(const_views(constants@) =~= cs);
    // Group by (property, value), in order of first occurrence.
    let mut keys: Vec<(String, Num)> = Vec::new();
    let mut members: Vec<Vec<String>> = Vec::new();
    let mut i: usize = 0;
    while i < constants.len()
        invariant
            i <= constants@.len(),
            const_views(constants@) == cs,
            keys@.len() == group_keys(cs.subrange(0, i as int)).len(),
            members@.len() == keys@.len(),
            forall|g: int| 0 <= g < keys@.len() ==> (#[trigger] keys@[g].0@, keys@[g].1) == group_keys(cs.subrange(0, i as int))[g],
            forall|g: int| 0 <= g < keys@.len() ==> views(#[trigger] members@[g]@) == group_members(cs.subrange(0, i as int), group_keys(cs.subrange(0, i as int))[g]),
        decreases constants@.len() - i,
    {
        let ghost sub = cs.subrange(0, i as int);
        let ghost sub2 = cs.subrange(0, i + 1);
        assert(sub2.drop_last() =~= sub);
        assert(sub2.last() == cs[i as int]);
        assert(cs[i as int] == (constants@[i as int].0@, constants@[i as int].1@, constants@[i as int].2));
        let ghost kc = const_key(cs[i as int]);
        proof {
            lemma_group_keys_distinct(sub);
        }
        let mut found: Option<usize> = None;
        let mut g: usize = 0;
        while g < keys.len()
            invariant
                g <= keys@.len(),
                keys@.len() == group_keys(sub).len(),
                forall|q: int| 0 <= q < keys@.len() ==> (#[trigger] keys@[q].0@, keys@[q].1) == group_keys(sub)[q],
                kc == (constants@[i as int].1@, constants@[i as int].2),
                i < constants@.len(),
                match found {
                    Some(f) => f < keys@.len() && group_keys(sub)[f as int] == kc,
                    None => forall|q: int| 0 <= q < g ==> #[trigger] group_keys(sub)[q] != kc,
                },
            decreases keys@.len() - g,
        {
            if found.is_none() {
                if str_eq(keys[g].0.as_str(), constants[i].1.as_str()) && keys[g].1 == constants[i].2 {
                    found = Some(g);
                }
            }
            g = g + 1;
        }
        let ghost old_keys = keys@;
        let ghost old_members = members@;
        match found {
            Some(f) => {
                assert(group_keys(sub).contains(kc));
                assert(group_keys(sub2) == group_keys(sub));
                let mut list: Vec<String> = Vec::new();
                std::mem::swap(&mut list, &mut members[f]);
                list.push(constants[i].0.clone());
                members.set(f, list);
                assert forall|q: int| 0 <= q < keys@.len() implies views(#[trigger] members@[q]@) == group_members(sub2, group_keys(sub2)[q]) by {
                    if q == f {
                        assert(views(members@[q]@) =~= views(old_members[q]@).push(cs[i as int].0));
                    } else {
                        assert(members@[q] == old_members[q]);
                        assert(group_keys(sub)[q] != group_keys(sub)[f as int]);
                        assert(group_members(sub2, group_keys(sub2)[q]) =~= group_members(sub, group_keys(sub)[q]));
                    }
                }
            },
            None => {
                assert(!group_keys(sub).contains(kc)) by {
                    if group_keys(sub).contains(kc) {
                        let q = choose|q: int| 0 <= q < group_keys(sub).len() && group_keys(sub)[q] == kc;
                        assert(group_keys(sub)[q] != kc);
                    }
                }
                assert(group_keys(sub2) == group_keys(sub).push(kc));
                proof {
                    lemma_members_of_absent_key(sub, kc);
                }
                keys.push((constants[i].1.clone(), constants[i].2));
                let mut list: Vec<String> = Vec::new();
                list.push(constants[i].0.clone());
                members.push(list);
                assert forall|q: int| 0 <= q < keys@.len() implies views(#[trigger] members@[q]@) == group_members(sub2, group_keys(sub2)[q]) by {
                    if q < old_keys.len() {
                        assert(members@[q] == old_members[q]);
                        assert(group_keys(sub2)[q] == group_keys(sub)[q]);
                        assert(group_keys(sub)[q] != kc) by {
                            assert(group_keys(sub).contains(group_keys(sub)[q]));
                        }
                        assert(group_members(sub2, group_keys(sub2)[q]) =~= group_members(sub, group_keys(sub)[q]));
                    } else {
                        assert(views(members@[q]@) =~= seq![cs[i as int].0]);
                        assert(group_members(sub2, kc) =~= seq![cs[i as int].0]);
                    }
                }
            },
        }
        i = i + 1;
    }
    assert(cs.subrange(0, i as int) =~= cs);
    let ghost keys_all = group_keys(cs);
    proof {
        lemma_appended_nothing(old(warnings)@, LintCategory::RedundantConstant);
    }
    let mut g: usize = 0;
    while g < keys.len()
        invariant
            g <= keys@.len(),
            keys@.len() == keys_all.len(),
            members@.len() == keys@.len(),
            keys_all == group_keys(cs),
            forall|q: int| 0 <= q < keys@.len() ==> (#[trigger] keys@[q].0@, keys@[q].1) == keys_all[q],
            forall|q: int| 0 <= q < keys@.len() ==> views(#[trigger] members@[q]@) == group_members(cs, keys_all[q]),
            appended(
                old(warnings)@,
                warnings@,
                LintCategory::RedundantConstant,
                redundant_messages(keys_all.subrange(0, g as int), cs),
            ),
        decreases keys@.len() - g,
    {
        let ghost ks = keys_all.subrange(0, g + 1);
        assert(ks.drop_last() =~= keys_all.subrange(0, g as int));
        assert(ks.last() == keys_all[g as int]);
        let mut unique: Vec<String> = Vec::new();
        let mut e: usize = 0;
        while e < members[g].len()
            invariant
                g < members@.len(),
                e <= members@[g as int]@.len(),
                views(unique@) == dedup(views(members@[g as int]@).subrange(0, e as int)),
            decreases members@[g as int]@.len() - e,
        {
            let ghost s2 = views(members@[g as int]@).subrange(0, e + 1);
            assert(s2.drop_last() =~= views(members@[g as int]@).subrange(0, e as int));
            assert(s2.last() == members@[g as int]@[e as int]@);
            insert_id(&mut unique, &members[g][e]);
            e = e + 1;
        }
        assert(views(members@[g as int]@).subrange(0, e as int) =~= views(members@[g as int]@));
        if unique.len() >= 2 {
            let msg = redundant_message_exec(&unique, &keys[g].0, keys[g].1);
            let w = LintWarning {
                category: LintCategory::RedundantConstant,
                message: msg,
                frames: Vec::new(),
                pair: None,
            };
            let ghost before = warnings@;
            let ghost wv = w;
            warnings.push(w);
            proof {
                lemma_appended_push(
                    old(warnings)@,
                    before,
                    LintCategory::RedundantConstant,
                    redundant_messages(keys_all.subrange(0, g as int), cs),
                    wv,
                    wv.message@,
                );
            }
        }
        g = g + 1;
    }
    assert(keys_all.subrange(0, g as int) =~= keys_all);
}

// ---------------------------------------------------------------------------
// Names and pairs
// ---------------------------------------------------------------------------

/// The two names a pair-warning is about, double quotes stripped, in order.
pub open spec fn sorted_pair_spec(a: Seq<char>, b: Seq<char>) -> (Seq<char>, Seq<char>) {
    let x = trim_quotes(a);
    let y = trim_quotes(b);
    if x == y || seq_lt(x, y) {
        (x, y)
    } else {
        (y, x)
    }
}

/// A pair warning names the same two elements whichever order they were
/// reported in.
pub proof fn lemma_sorted_pair_symmetric(a: Seq<char>, b: Seq<char>)
    ensures
        sorted_pair_spec(a, b) == sorted_pair_spec(b, a),
{
    crate::strings::lemma_seq_lt_total(trim_quotes(a), trim_quotes(b));
}

/// The two names a pair-warning is about, quotes stripped and order-independent
/// so the same geometry reported by two checks compares equal.
pub fn sorted_pair(a: &str, b: &str) -> (r: (String, String))
    ensures
        (r.0@, r.1@) == sorted_pair_spec(a@, b@),
{
    let x = trim_quotes_exec(a);
    let y = trim_quotes_exec(b);
    if text_le(x.as_str(), y.as_str()) {
        (x, y)
    } else {
        (y, x)
    }
}

/// Split a generated grid-cell id `{grid}__cell_{row}_{col}` back into its parts.
pub open spec fn grid_cell_parts(id: Seq<char>) -> Option<(Seq<char>, Seq<char>, Seq<char>)> {
    match find_first(id, "__cell_"@) {
        Some(i) => {
            let coords = id.subrange(i + "__cell_"@.len(), id.len() as int);
            match find_first(coords, seq!['_']) {
                Some(k) => Some((id.subrange(0, i), coords.subrange(0, k), coords.subrange(k + 1, coords.len() as int))),
                None => None,
            }
        },
        None => None,
    }
}

/// Split a generated cell id back into (grid, row, col).
pub fn parse_grid_cell_id(id: &str) -> (r: Option<(String, String, String)>)
    ensures
        match r {
            Some(t) => grid_cell_parts(id@) == Some((t.0@, t.1@, t.2@)),
            None => grid_cell_parts(id@) is None,
        },
{
    let cs = chars_of(id);
    let marker = chars_of("__cell_");
    match chars_find(&cs, &marker) {
        None => None,
        Some(i) => {
            proof {
                lemma_find_bound(cs@, marker@, 0, i as int);
            }
            let cl = cs.len();
            let ml = marker.len();
            assert(i + ml <= cl);
            let start = i + ml;
            let coords_s = string_of_range(&cs, start, cs.len());
            let coords = chars_of(coords_s.as_str());
            let mut us: Vec<char> = Vec::new();
            us.push('_');
            assert(us@ =~= seq!['_']);
            match chars_find(&coords, &us) {
                None => None,
                Some(k) => {
                    proof {
                        lemma_find_bound(coords@, us@, 0, k as int);
                    }
                    let grid = string_of_range(&cs, 0, i);
                    let row = string_of_range(&coords, 0, k);
                    let col = string_of_range(&coords, k + 1, coords.len());
                    Some((grid, row, col))
                },
            }
        },
    }
}

proof fn lemma_find_bound(hay: Seq<char>, needle: Seq<char>, start: int, i: int)
    requires
        crate::strings::find_from(hay, needle, start) == Some(i),
    ensures
        0 <= i,
        i + needle.len() <= hay.len(),
    decreases hay.len() + 1 - start,
{
    if start < 0 || start + needle.len() > hay.len() {
    } else if crate::strings::occurs_at(hay, needle, start) {
    } else {
        lemma_find_bound(hay, needle, start + 1, i);
    }
}

/// A CSS variable name that refers to a dark fill.
pub open spec fn dark_css_variable(name: Seq<char>) -> bool {
    ||| contains_seq(name, "-dark"@)
    ||| contains_seq(name, "foreground-1"@)
    ||| contains_seq(name, "foreground-2"@)
    ||| contains_seq(name, "text-dark"@)
    ||| contains_seq(name, "text-1"@)
    ||| contains_seq(name, "text-2"@)
}

/// Check if a CSS variable name refers to a dark fill.
pub fn is_dark_css_variable(name: &str) -> (r: bool)
    ensures
        r == dark_css_variable(name@),
{
    str_contains(name, "-dark") || str_contains(name, "foreground-1") || str_contains(name, "foreground-2")
        || str_contains(name, "text-dark") || str_contains(name, "text-1") || str_contains(name, "text-2")
}

/// How an author spells a style key.
pub open spec fn key_name(k: StyleKey) -> Seq<char> {
    match k {
        StyleKey::Fill => "fill"@,
        StyleKey::Stroke => "stroke"@,
        StyleKey::StrokeWidth => "stroke_width"@,
        StyleKey::StrokeDasharray => "stroke_dasharray"@,
        StyleKey::Opacity => "opacity"@,
        StyleKey::Label => "label"@,
        StyleKey::LabelFill => "label_fill"@,
        StyleKey::LabelPosition => "label_position"@,
        StyleKey::LabelOffset => "label_offset"@,
        StyleKey::LabelAt => "label_at"@,
        StyleKey::Role => "role"@,
        StyleKey::Gap => "gap"@,
        StyleKey::Size => "size"@,
        StyleKey::Width => "width"@,
        StyleKey::Height => "height"@,
        StyleKey::X => "x"@,
        StyleKey::Y => "y"@,
        StyleKey::Dx => "dx"@,
        StyleKey::Dy => "dy"@,
        StyleKey::Scale => "scale"@,
        StyleKey::Rotation => "rotation"@,
        StyleKey::Routing => "routing"@,
        StyleKey::FontSize => "font_size"@,
        StyleKey::Class => "class"@,
        StyleKey::Custom(c) => c@,
    }
}

/// `s` with every leading copy of the nonempty `p` removed (std's
/// `trim_start_matches`).
pub open spec fn trim_prefix_all(s: Seq<char>, p: Seq<char>) -> Seq<char>
    decreases s.len(),
{
    if p.len() > 0 && occurs_at(s, p, 0) {
        trim_prefix_all(s.subrange(p.len() as int, s.len() as int), p)
    } else {
        s
    }
}

/// `s` with every trailing `c` removed (std's `trim_end_matches`).
pub open spec fn trim_suffix_all(s: Seq<char>, c: char) -> Seq<char>
    decreases s.len(),
{
    if s.len() > 0 && s.last() == c {
        trim_suffix_all(s.drop_last(), c)
    } else {
        s
    }
}

/// Whether a fill is dark by its name alone: a `var(--name)` reference or a
/// bare palette token is dark exactly when the token is; a reference that is
/// not dark is settled as not dark. `None` means a hex colour (leading `#`)
/// that is not a dark token, whose luminance decides; any other fill is not
/// dark.
pub open spec fn fill_dark_by_name(f: Seq<char>) -> Option<bool> {
    if occurs_at(f, "var(--"@, 0) {
        Some(dark_css_variable(trim_suffix_all(trim_prefix_all(f, "var(--"@), ')')))
    } else if dark_css_variable(f) {
        Some(true)
    } else if f.len() > 0 && f[0] == '#' {
        None
    } else {
        Some(false)
    }
}

/// Decide from its name whether a fill is dark (see `fill_dark_by_name`);
/// `None` leaves a hex colour to the luminance test.
pub fn dark_fill_by_name(fill: &str) -> (r: Option<bool>)
    ensures
        r == fill_dark_by_name(fill@),
{
    let cs = chars_of(fill);
    let pre = chars_of("var(--");
    proof {
        reveal_strlit("var(--");
    }
    let len = cs.len();
    if chars_occur_at(&cs, &pre, 0) {
        let mut start: usize = 0;
        assert(cs@.subrange(0, len as int) =~= cs@);
        while len - start >= 6 && chars_occur_at(&cs, &pre, start)
            invariant
                start <= len,
                len == cs@.len(),
                pre@ == "var(--"@,
                pre@.len() == 6,
                trim_prefix_all(cs@.subrange(start as int, len as int), pre@) == trim_prefix_all(cs@, pre@),
            decreases len - start,
        {
            let ghost sub = cs@.subrange(start as int, len as int);
            assert(sub.subrange(0, 6) =~= cs@.subrange(start as int, start + 6));
            assert(occurs_at(sub, pre@, 0));
            assert(sub.subrange(6, sub.len() as int) =~= cs@.subrange(start + 6, len as int));
            start = start + 6;
        }
        proof {
            let sub = cs@.subrange(start as int, len as int);
            if occurs_at(sub, pre@, 0) {
                assert(sub.subrange(0, 6) =~= cs@.subrange(start as int, start + 6));
                assert(occurs_at(cs@, pre@, start as int));
            }
        }
        let mut end: usize = len;
        assert(cs@.subrange(start as int, len as int) == trim_prefix_all(cs@, pre@));
        while end > start && cs[end - 1] == ')'
            invariant
                start <= end <= len,
                len == cs@.len(),
                trim_suffix_all(cs@.subrange(start as int, end as int), ')') == trim_suffix_all(
                    trim_prefix_all(cs@, pre@),
                    ')',
                ),
            decreases end - start,
        {
            let ghost sub = cs@.subrange(start as int, end as int);
            assert(sub.last() == cs@[end - 1]);
            assert(sub.drop_last() =~= cs@.subrange(start as int, end - 1));
            end = end - 1;
        }
        let name = string_of_range(&cs, start, end);
        Some(is_dark_css_variable(name.as_str()))
    } else if is_dark_css_variable(fill) {
        Some(true)
    } else if len > 0 && cs[0] == '#' {
        None
    } else {
        Some(false)
    }
}

/// Spell a style key the way an author writes it (snake_case).
pub fn style_key_name(key: &StyleKey) -> (r: String)
    ensures
        r@ == key_name(*key),
{
    let s: &str = match key {
        StyleKey::Custom(c) => {
            return c.clone();
        },
        StyleKey::Fill => "fill",
        StyleKey::Stroke => "stroke",
        StyleKey::StrokeWidth => "stroke_width",
        StyleKey::StrokeDasharray => "stroke_dasharray",
        StyleKey::Opacity => "opacity",
        StyleKey::Label => "label",
        StyleKey::LabelFill => "label_fill",
        StyleKey::LabelPosition => "label_position",
        StyleKey::LabelOffset => "label_offset",
        StyleKey::LabelAt => "label_at",
        StyleKey::Role => "role",
        StyleKey::Gap => "gap",
        StyleKey::Size => "size",
        StyleKey::Width => "width",
        StyleKey::Height => "height",
        StyleKey::X => "x",
        StyleKey::Y => "y",
        StyleKey::Dx => "dx",
        StyleKey::Dy => "dy",
        StyleKey::Scale => "scale",
        StyleKey::Rotation => "rotation",
        StyleKey::Routing => "routing",
        StyleKey::FontSize => "font_size",
        StyleKey::Class => "class",
    };
    String::from_str(s)
}

// ---------------------------------------------------------------------------
// What is on screen, and what `contains` wraps
// ---------------------------------------------------------------------------

/// Which elements and connections are on screen for the check currently running.
#[derive(Debug)]
pub struct FrameScope {
    pub hidden_elements: NameSet,
    pub hidden_connections: NameSet,
}

impl FrameScope {
    /// An empty scope: nothing is hidden (documents without keyframes).
    pub fn all_visible() -> (r: FrameScope)
        ensures
            r.hidden_elements.wf(),
            r.hidden_connections.wf(),
            r.hidden_elements@ == Set::<Seq<char>>::empty(),
            r.hidden_connections@ == Set::<Seq<char>>::empty(),
    {
        FrameScope { hidden_elements: NameSet::new(), hidden_connections: NameSet::new() }
    }

    /// The scope of one keyframe.
    pub fn for_frame(state: &super::keyframe::FrameState) -> (r: FrameScope)
        ensures
            r.hidden_elements@ == state.hidden_elements@,
            r.hidden_connections@ == state.hidden_connections@,
    {
        FrameScope {
            hidden_elements: state.hidden_elements.copy(),
            hidden_connections: state.hidden_connections.copy(),
        }
    }

    /// Whether the element with this id (if it has one) is hidden.
    pub fn hides_element(&self, id: Option<&str>) -> (r: bool)
        ensures
            r == match id {
                Some(s) => self.hidden_elements@.contains(s@),
                None => false,
            },
    {
        match id {
            Some(s) => self.hidden_elements.contains(s),
            None => false,
        }
    }

    /// Whether the connection with this name (if it has one) is hidden.
    pub fn hides_connection(&self, name: Option<&str>) -> (r: bool)
        ensures
            r == match name {
                Some(s) => self.hidden_connections@.contains(s@),
                None => false,
            },
    {
        match name {
            Some(s) => self.hidden_connections.contains(s),
            None => false,
        }
    }
}

/// Which elements a `contains` constraint wraps, per container.
#[derive(Debug)]
pub struct ContainsRelations {
    pub by_container: NameMap<NameSet>,
}

/// The names a list of identifiers holds.
pub open spec fn id_names(ids: Seq<Spanned<Identifier>>) -> Set<Seq<char>> {
    Set::new(|s: Seq<char>| exists|i: int| 0 <= i < ids.len() && #[trigger] ids[i].node.0@ == s)
}

/// The (container, element) pairs of the `contains` constraints of a statement.
pub open spec fn stmt_contains_pairs(s: Statement) -> Set<(Seq<char>, Seq<char>)>
    decreases s,
{
    match s {
        Statement::Constrain(c) => match c.expr {
            ConstraintExpr::Contains { container, elements, .. } => Set::new(
                |p: (Seq<char>, Seq<char>)| p.0 == container.node.0@ && id_names(elements@).contains(p.1),
            ),
            _ => Set::empty(),
        },
        Statement::Layout(l) => stmts_contains_pairs(l.children@),
        Statement::Group(g) => stmts_contains_pairs(g.children@),
        _ => Set::empty(),
    }
}

/// The (container, element) pairs of a list of statements.
pub open spec fn stmts_contains_pairs(ss: Seq<Spanned<Statement>>) -> Set<(Seq<char>, Seq<char>)>
    decreases ss,
{
    if ss.len() == 0 {
        Set::empty()
    } else {
        stmts_contains_pairs(ss.subrange(0, ss.len() - 1)).union(stmt_contains_pairs(ss[ss.len() - 1].node))
    }
}

impl ContainsRelations {
    /// Every per-container set is well formed.
    pub open spec fn wf(self) -> bool {
        &&& self.by_container.wf()
        &&& forall|k: Seq<char>| #[trigger] self.by_container.lookup(k) is Some ==> self.by_container.lookup(k).unwrap().wf()
    }

    /// The (container, element) pairs recorded.
    pub open spec fn pairs(self) -> Set<(Seq<char>, Seq<char>)> {
        Set::new(|p: (Seq<char>, Seq<char>)| self.by_container.lookup(p.0) is Some && self.by_container.lookup(p.0).unwrap()@.contains(p.1))
    }

    /// True when one of these two wraps the other.
    pub fn wraps(&self, a: Option<&str>, b: Option<&str>) -> (r: bool)
        requires
            self.wf(),
        ensures
            r == match (a, b) {
                (Some(x), Some(y)) => self.pairs().contains((x@, y@)) || self.pairs().contains((y@, x@)),
                _ => false,
            },
    {
        match (a, b) {
            (Some(x), Some(y)) => {
                let first = match self.by_container.get(x) {
                    Some(c) => c.contains(y),
                    None => false,
                };
                let second = match self.by_container.get(y) {
                    Some(c) => c.contains(x),
                    None => false,
                };
                first || second
            },
            _ => false,
        }
    }
}

fn record_contains(relations: &mut ContainsRelations, container: &Spanned<Identifier>, elements: &Vec<Spanned<Identifier>>)
    requires
        old(relations).wf(),
    ensures
        final(relations).wf(),
        final(relations).pairs() == old(relations).pairs().union(
            Set::new(|p: (Seq<char>, Seq<char>)| p.0 == container.node.0@ && id_names(elements@).contains(p.1)),
        ),
{
    let ghost c = container.node.0@;
    let mut set = match relations.by_container.get(container.node.0.as_str()) {
        Some(s) => s.copy(),
        None => NameSet::new(),
    };
    let ghost start = set@;
    let mut i: usize = 0;
    while i < elements.len()
        invariant
            i <= elements@.len(),
            set.wf(),
            set@ == start.union(id_names(elements@.subrange(0, i as int))),
        decreases elements@.len() - i,
    {
        let ghost before = set@;
        set.insert(elements[i].node.0.clone());
        i = i + 1;
        assert(set@ =~= start.union(id_names(elements@.subrange(0, i as int)))) by {
            assert forall|n: Seq<char>| #[trigger] id_names(elements@.subrange(0, i as int)).contains(n)
                <==> id_names(elements@.subrange(0, i - 1)).contains(n) || n == elements@[i - 1].node.0@ by {
                let a = elements@.subrange(0, i as int);
                let b = elements@.subrange(0, i - 1);
                if id_names(a).contains(n) {
                    let q = choose|q: int| 0 <= q < a.len() && #[trigger] a[q].node.0@ == n;
                    if q < i - 1 {
                        assert(b[q].node.0@ == n);
                    }
                }
                if id_names(b).contains(n) {
                    let q = choose|q: int| 0 <= q < b.len() && #[trigger] b[q].node.0@ == n;
                    assert(a[q].node.0@ == n);
                }
                if n == elements@[i - 1].node.0@ {
                    assert(a[i - 1].node.0@ == n);
                }
            }
        }
    }
    assert(elements@.subrange(0, i as int) =~= elements@);
    let ghost old_rel = *relations;
    relations.by_container.insert(container.node.0.clone(), set);
    assert forall|k: Seq<char>| #[trigger] relations.by_container.lookup(k) is Some implies relations.by_container.lookup(k).unwrap().wf() by {
        if k != c {
            assert(relations.by_container.lookup(k) == old_rel.by_container.lookup(k));
        }
    }
    let ghost want = old_rel.pairs().union(
        Set::new(|p: (Seq<char>, Seq<char>)| p.0 == c && id_names(elements@).contains(p.1)),
    );
    assert forall|p: (Seq<char>, Seq<char>)| #[trigger] relations.pairs().contains(p) <==> want.contains(p) by {
        if p.0 != c {
            assert(relations.by_container.lookup(p.0) == old_rel.by_container.lookup(p.0));
        } else {
            if old_rel.by_container.lookup(c) is None {
                assert(start == Set::<Seq<char>>::empty());
            }
        }
    }
    assert(relations.pairs() =~= want);
}

fn collect_contains_in_statement(stmt: &Statement, relations: &mut ContainsRelations)
    requires
        old(relations).wf(),
    ensures
        final(relations).wf(),
        final(relations).pairs() == old(relations).pairs().union(stmt_contains_pairs(*stmt)),
    decreases stmt, 1nat,
{
    match stmt {
        Statement::Constrain(c) => {
            match &c.expr {
                ConstraintExpr::Contains { container, elements, .. } => {
                    record_contains(relations, container, elements);
                },
                _ => {
                    assert(relations.pairs() =~= old(relations).pairs().union(stmt_contains_pairs(*stmt)));
                },
            }
        },
        Statement::Layout(l) => {
            collect_contains_ids_from_stmts(&l.children, relations);
        },
        Statement::Group(g) => {
            collect_contains_ids_from_stmts(&g.children, relations);
        },
        _ => {
            assert(relations.pairs() =~= old(relations).pairs().union(stmt_contains_pairs(*stmt)));
        },
    }
}

fn collect_contains_ids_from_stmts(stmts: &Vec<Spanned<Statement>>, relations: &mut ContainsRelations)
    requires
        old(relations).wf(),
    ensures
        final(relations).wf(),
        final(relations).pairs() == old(relations).pairs().union(stmts_contains_pairs(stmts@)),
    decreases stmts, 0nat,
{
    let mut i: usize = 0;
    while i < stmts.len()
        invariant
            i <= stmts@.len(),
            relations.wf(),
            relations.pairs() == old(relations).pairs().union(stmts_contains_pairs(stmts@.subrange(0, i as int))),
        decreases stmts@.len() - i,
    {
        let ghost sub = stmts@.subrange(0, i + 1);
        assert(sub.subrange(0, sub.len() - 1) =~= stmts@.subrange(0, i as int));
        assert(sub[sub.len() - 1] == stmts@[i as int]);
        assert(decreases_to!(stmts => stmts@[i as int].node));
        collect_contains_in_statement(&stmts[i].node, relations);
        i = i + 1;
        assert(relations.pairs() =~= old(relations).pairs().union(stmts_contains_pairs(stmts@.subrange(0, i as int))));
    }
    assert(stmts@.subrange(0, i as int) =~= stmts@);
}

/// The `contains` relations of a document: which elements each container wraps.
pub fn collect_contains_ids(doc: &Document) -> (r: ContainsRelations)
    ensures
        r.wf(),
        r.pairs() == stmts_contains_pairs(doc.statements@),
{
    let mut relations = ContainsRelations { by_container: NameMap::new() };
    assert(relations.pairs() =~= Set::<(Seq<char>, Seq<char>)>::empty());
    collect_contains_ids_from_stmts(&doc.statements, &mut relations);
    assert(relations.pairs() =~= stmts_contains_pairs(doc.statements@));
    relations
}

// ---------------------------------------------------------------------------
// Crowded rows and columns
// ---------------------------------------------------------------------------

/// A child that takes a slot in a row or column.
pub open spec fn counted_child(s: Statement) -> bool {
    s is Shape || s is Group || s is Layout
}

/// The number of children that take a slot.
pub open spec fn count_children(cs: Seq<Spanned<Statement>>) -> nat
    decreases cs.len(),
{
    if cs.len() == 0 {
        0
    } else {
        count_children(cs.drop_last()) + if counted_child(cs.last().node) {
            1nat
        } else {
            0nat
        }
    }
}

/// An element's name in quotes, or `anon` when it has none.
pub open spec fn owner_text(name: Option<Spanned<Identifier>>, anon: Seq<char>) -> Seq<char> {
    match name {
        Some(n) => "\""@ + n.node.0@ + "\""@,
        None => anon,
    }
}

/// The message for a crowded row or column.
pub open spec fn crowded_message(l: LayoutDecl) -> Seq<char> {
    (if l.layout_type.node is Row {
        "row"@
    } else {
        "col"@
    }) + " "@ + owner_text(l.name, "<anon>"@) + " has "@ + decimal(count_children(l.children@))
        + " children; for >8 elements, consider using group with constraints instead"@
}

/// Messages for the rows and columns of a statement with more than eight
/// slot-taking children, a layout before the layouts inside it.
pub open spec fn stmt_crowded(s: Statement) -> Seq<Seq<char>>
    decreases s,
{
    match s {
        Statement::Layout(l) => (if (l.layout_type.node is Row || l.layout_type.node is Column)
            && count_children(l.children@) > 8 {
            seq![crowded_message(l)]
        } else {
            Seq::empty()
        }) + stmts_crowded(l.children@),
        Statement::Group(g) => stmts_crowded(g.children@),
        _ => Seq::empty(),
    }
}

/// Crowded-layout messages of a list of statements, in document order.
pub open spec fn stmts_crowded(ss: Seq<Spanned<Statement>>) -> Seq<Seq<char>>
    decreases ss,
{
    if ss.len() == 0 {
        Seq::empty()
    } else {
        stmts_crowded(ss.subrange(0, ss.len() - 1)) + stmt_crowded(ss[ss.len() - 1].node)
    }
}

/// Appends an element's name in quotes, or `anon`.
fn push_owner(msg: &mut String, name: &Option<Spanned<Identifier>>, anon: &str)
    ensures
        final(msg)@ == old(msg)@ + owner_text(*name, anon@),
{
    match name {
        Some(n) => {
            msg.append("\"");
            msg.append(n.node.0.as_str());
            msg.append("\"");
        },
        None => {
            msg.append(anon);
        },
    }
}

fn count_slot_children(cs: &Vec<Spanned<Statement>>) -> (r: usize)
    ensures
        r == count_children(cs@),
{
    let mut n: usize = 0;
    let mut i: usize = 0;
    while i < cs.len()
        invariant
            i <= cs@.len(),
            n == count_children(cs@.subrange(0, i as int)),
            n <= i,
        decreases cs@.len() - i,
    {
        let ghost sub = cs@.subrange(0, i + 1);
        assert(sub.drop_last() =~= cs@.subrange(0, i as int));
        match &cs[i].node {
            Statement::Shape(_) | Statement::Group(_) | Statement::Layout(_) => {
                n = n + 1;
            },
            _ => {},
        }
        i = i + 1;
    }
    assert(cs@.subrange(0, i as int) =~= cs@);
    n
}

fn check_crowded_statement(stmt: &Statement, warnings: &mut Vec<LintWarning>)
    ensures
        appended(old(warnings)@, final(warnings)@, LintCategory::CrowdedLayout, stmt_crowded(*stmt)),
    decreases stmt, 1nat,
{
    proof {
        lemma_appended_nothing(old(warnings)@, LintCategory::CrowdedLayout);
    }
    match stmt {
        Statement::Layout(l) => {
            let is_line = match l.layout_type.node {
                LayoutType::Row | LayoutType::Column => true,
                _ => false,
            };
            let ghost mine: Seq<Seq<char>> = if is_line && count_children(l.children@) > 8 {
                seq![crowded_message(*l)]
            } else {
                Seq::empty()
            };
            if is_line {
                let child_count = count_slot_children(&l.children);
                if child_count > 8 {
                    let mut msg = String::new();
                    match l.layout_type.node {
                        LayoutType::Row => msg.append("row"),
                        _ => msg.append("col"),
                    }
                    msg.append(" ");
                    push_owner(&mut msg, &l.name, "<anon>");
                    msg.append(" has ");
                    push_decimal(&mut msg, child_count as u64);
                    msg.append(" children; for >8 elements, consider using group with constraints instead");
                    assert(msg@ =~= crowded_message(*l));
                    let w = LintWarning {
                        category: LintCategory::CrowdedLayout,
                        message: msg,
                        frames: Vec::new(),
                        pair: None,
                    };
                    let ghost wv = w;
                    warnings.push(w);
                    proof {
                        lemma_appended_push(old(warnings)@, old(warnings)@, LintCategory::CrowdedLayout, Seq::empty(), wv, wv.message@);
                        assert(Seq::<Seq<char>>::empty().push(wv.message@) =~= mine);
                    }
                }
            }
            let ghost mid = warnings@;
            check_crowded_layouts_in_stmts(&l.children, warnings);
            proof {
                lemma_appended_concat(old(warnings)@, mid, warnings@, LintCategory::CrowdedLayout, mine, stmts_crowded(l.children@));
            }
        },
        Statement::Group(g) => {
            check_crowded_layouts_in_stmts(&g.children, warnings);
        },
        _ => {},
    }
}

fn check_crowded_layouts_in_stmts(stmts: &Vec<Spanned<Statement>>, warnings: &mut Vec<LintWarning>)
    ensures
        appended(old(warnings)@, final(warnings)@, LintCategory::CrowdedLayout, stmts_crowded(stmts@)),
    decreases stmts, 0nat,
{
    proof {
        lemma_appended_nothing(old(warnings)@, LintCategory::CrowdedLayout);
    }
    let mut i: usize = 0;
    while i < stmts.len()
        invariant
            i <= stmts@.len(),
            appended(old(warnings)@, warnings@, LintCategory::CrowdedLayout, stmts_crowded(stmts@.subrange(0, i as int))),
        decreases stmts@.len() - i,
    {
        let ghost sub = stmts@.subrange(0, i + 1);
        assert(sub.subrange(0, sub.len() - 1) =~= stmts@.subrange(0, i as int));
        assert(sub[sub.len() - 1] == stmts@[i as int]);
        assert(decreases_to!(stmts => stmts@[i as int].node));
        let ghost mid = warnings@;
        check_crowded_statement(&stmts[i].node, warnings);
        proof {
            lemma_appended_concat(
                old(warnings)@,
                mid,
                warnings@,
                LintCategory::CrowdedLayout,
                stmts_crowded(stmts@.subrange(0, i as int)),
                stmt_crowded(stmts@[i as int].node),
            );
        }
        i = i + 1;
    }
    assert(stmts@.subrange(0, i as int) =~= stmts@);
}

/// Warn about rows and columns with more than eight shapes, groups or layouts.
pub fn check_crowded_layouts(doc: &Document, warnings: &mut Vec<LintWarning>)
    ensures
        appended(old(warnings)@, final(warnings)@, LintCategory::CrowdedLayout, stmts_crowded(doc.statements@)),
{
    check_crowded_layouts_in_stmts(&doc.statements, warnings);
}

// ---------------------------------------------------------------------------
// Unknown modifiers
// ---------------------------------------------------------------------------

/// Modifier keys that are not style keys of their own but are still read
/// somewhere (grid placement and sizing, svg templates, routing, `contains`).
pub open spec fn known_custom_keys() -> Seq<Seq<char>> {
    seq![
        "at"@,
        "cell_width"@,
        "cell_height"@,
        "cols"@,
        "rows"@,
        "col_labels"@,
        "row_labels"@,
        "trim"@,
        "via"@,
        "padding"@,
    ]
}

fn is_known_custom_key(key: &str) -> (r: bool)
    ensures
        r == known_custom_keys().contains(key@),
{
    let keys: [&str; 10] = [
        "at",
        "cell_width",
        "cell_height",
        "cols",
        "rows",
        "col_labels",
        "row_labels",
        "trim",
        "via",
        "padding",
    ];
    let mut k: usize = 0;
    while k < 10
        invariant
            k <= 10,
            keys@ == seq!["at", "cell_width", "cell_height", "cols", "rows", "col_labels", "row_labels", "trim", "via", "padding"],
            forall|j: int| 0 <= j < k ==> #[trigger] known_custom_keys()[j] != key@,
        decreases 10 - k,
    {
        if str_eq(keys[k], key) {
            assert(known_custom_keys()[k as int] == key@);
            return true;
        }
        k = k + 1;
    }
    false
}

/// Messages for the unknown custom keys among `mods`, in order.
pub open spec fn unknown_modifier_msgs(mods: Seq<Spanned<StyleModifier>>, owner: Seq<char>) -> Seq<Seq<char>>
    decreases mods.len(),
{
    if mods.len() == 0 {
        Seq::empty()
    } else {
        unknown_modifier_msgs(mods.drop_last(), owner) + match mods.last().node.key.node {
            StyleKey::Custom(k) => if known_custom_keys().contains(k@) {
                Seq::empty()
            } else {
                seq![
                    "unknown modifier \""@ + k@ + "\" on "@ + owner
                        + " is ignored; check the spelling against --grammar"@,
                ]
            },
            _ => Seq::empty(),
        }
    }
}

/// How a connection is named in messages.
pub open spec fn connection_owner(c: ConnectionDecl) -> Seq<char> {
    "connection "@ + c.from.element.node.0@ + "->"@ + c.to.element.node.0@
}

/// How a keyframe transform's target is named in messages.
pub open spec fn transform_owner(target: Spanned<Identifier>, kf: KeyframeDecl) -> Seq<char> {
    "\""@ + target.node.0@ + "\" in keyframe \""@ + kf.name.node@ + "\""@
}

/// Unknown-modifier messages of a list of connections.
pub open spec fn conns_unknown_msgs(cs: Seq<ConnectionDecl>) -> Seq<Seq<char>>
    decreases cs.len(),
{
    if cs.len() == 0 {
        Seq::empty()
    } else {
        conns_unknown_msgs(cs.drop_last()) + unknown_modifier_msgs(cs.last().modifiers@, connection_owner(cs.last()))
    }
}

/// Unknown-modifier messages of the transforms of a keyframe.
pub open spec fn ops_unknown_msgs(ops: Seq<Spanned<KeyframeOp>>, kf: KeyframeDecl) -> Seq<Seq<char>>
    decreases ops.len(),
{
    if ops.len() == 0 {
        Seq::empty()
    } else {
        ops_unknown_msgs(ops.drop_last(), kf) + match ops.last().node {
            KeyframeOp::Transform { target, modifiers } => unknown_modifier_msgs(modifiers@, transform_owner(target, kf)),
            _ => Seq::empty(),
        }
    }
}

/// Unknown-modifier messages of a statement.
pub open spec fn stmt_unknown_msgs(s: Statement) -> Seq<Seq<char>>
    decreases s,
{
    match s {
        Statement::Shape(sh) => unknown_modifier_msgs(sh.modifiers@, owner_text(sh.name, "an unnamed element"@)),
        Statement::Layout(l) => unknown_modifier_msgs(l.modifiers@, owner_text(l.name, "an unnamed element"@))
            + stmts_unknown_msgs(l.children@),
        Statement::Group(g) => unknown_modifier_msgs(g.modifiers@, owner_text(g.name, "an unnamed element"@))
            + stmts_unknown_msgs(g.children@),
        Statement::Connection(cs) => conns_unknown_msgs(cs@),
        Statement::Keyframe(kf) => ops_unknown_msgs(kf.operations@, kf),
        _ => Seq::empty(),
    }
}

/// Unknown-modifier messages of a list of statements.
pub open spec fn stmts_unknown_msgs(ss: Seq<Spanned<Statement>>) -> Seq<Seq<char>>
    decreases ss,
{
    if ss.len() == 0 {
        Seq::empty()
    } else {
        stmts_unknown_msgs(ss.subrange(0, ss.len() - 1)) + stmt_unknown_msgs(ss[ss.len() - 1].node)
    }
}

fn check_unknown_in(mods: &Vec<Spanned<StyleModifier>>, owner: &String, warnings: &mut Vec<LintWarning>)
    ensures
        appended(old(warnings)@, final(warnings)@, LintCategory::UnknownModifier, unknown_modifier_msgs(mods@, owner@)),
{
    proof {
        lemma_appended_nothing(old(warnings)@, LintCategory::UnknownModifier);
    }
    let mut i: usize = 0;
    while i < mods.len()
        invariant
            i <= mods@.len(),
            appended(old(warnings)@, warnings@, LintCategory::UnknownModifier, unknown_modifier_msgs(mods@.subrange(0, i as int), owner@)),
        decreases mods@.len() - i,
    {
        let ghost sub = mods@.subrange(0, i + 1);
        assert(sub.drop_last() =~= mods@.subrange(0, i as int));
        assert(sub.last() == mods@[i as int]);
        let ghost prev = unknown_modifier_msgs(mods@.subrange(0, i as int), owner@);
        match &mods[i].node.key.node {
            StyleKey::Custom(key) => {
                if !is_known_custom_key(key.as_str()) {
                    let mut msg = String::new();
                    msg.append("unknown modifier \"");
                    msg.append(key.as_str());
                    msg.append("\" on ");
                    msg.append(owner.as_str());
                    msg.append(" is ignored; check the spelling against --grammar");
                    let w = LintWarning { category: LintCategory::UnknownModifier, message: msg, frames: Vec::new(), pair: None };
                    let ghost before = warnings@;
                    let ghost wv = w;
                    warnings.push(w);
                    proof {
                        lemma_appended_push(old(warnings)@, before, LintCategory::UnknownModifier, prev, wv, wv.message@);
                        assert(prev.push(wv.message@) =~= unknown_modifier_msgs(sub, owner@));
                    }
                } else {
                    assert(prev =~= unknown_modifier_msgs(sub, owner@));
                }
            },
            _ => {
                assert(prev =~= unknown_modifier_msgs(sub, owner@));
            },
        }
        i = i + 1;
    }
    assert(mods@.subrange(0, i as int) =~= mods@);
}

fn owner_string(name: &Option<Spanned<Identifier>>) -> (r: String)
    ensures
        r@ == owner_text(*name, "an unnamed element"@),
{
    let mut s = String::new();
    push_owner(&mut s, name, "an unnamed element");
    s
}

fn transform_owner_string(target: &Spanned<Identifier>, kf: &KeyframeDecl) -> (r: String)
    ensures
        r@ == transform_owner(*target, *kf),
{
    let mut s = String::new();
    s.append("\"");
    s.append(target.node.0.as_str());
    s.append("\" in keyframe \"");
    s.append(kf.name.node.as_str());
    s.append("\"");
    s
}

fn check_unknown_in_ops(kf: &KeyframeDecl, warnings: &mut Vec<LintWarning>)
    ensures
        appended(old(warnings)@, final(warnings)@, LintCategory::UnknownModifier, ops_unknown_msgs(kf.operations@, *kf)),
{
    proof {
        lemma_appended_nothing(old(warnings)@, LintCategory::UnknownModifier);
    }
    let mut i: usize = 0;
    while i < kf.operations.len()
        invariant
            i <= kf.operations@.len(),
            appended(old(warnings)@, warnings@, LintCategory::UnknownModifier, ops_unknown_msgs(kf.operations@.subrange(0, i as int), *kf)),
        decreases kf.operations@.len() - i,
    {
        let ghost sub = kf.operations@.subrange(0, i + 1);
        assert(sub.drop_last() =~= kf.operations@.subrange(0, i as int));
        assert(sub.last() == kf.operations@[i as int]);
        let ghost mid = warnings@;
        match &kf.operations[i].node {
            KeyframeOp::Transform { target, modifiers } => {
                let owner = transform_owner_string(target, kf);
                check_unknown_in(modifiers, &owner, warnings);
                proof {
                    lemma_appended_concat(old(warnings)@, mid, warnings@, LintCategory::UnknownModifier,
                        ops_unknown_msgs(kf.operations@.subrange(0, i as int), *kf), unknown_modifier_msgs(modifiers@, owner@));
                }
            },
            _ => {
                assert(ops_unknown_msgs(sub, *kf) =~= ops_unknown_msgs(kf.operations@.subrange(0, i as int), *kf));
            },
        }
        i = i + 1;
    }
    assert(kf.operations@.subrange(0, i as int) =~= kf.operations@);
}

fn check_unknown_in_conns(cs: &Vec<ConnectionDecl>, warnings: &mut Vec<LintWarning>)
    ensures
        appended(old(warnings)@, final(warnings)@, LintCategory::UnknownModifier, conns_unknown_msgs(cs@)),
{
    proof {
        lemma_appended_nothing(old(warnings)@, LintCategory::UnknownModifier);
    }
    let mut i: usize = 0;
    while i < cs.len()
        invariant
            i <= cs@.len(),
            appended(old(warnings)@, warnings@, LintCategory::UnknownModifier, conns_unknown_msgs(cs@.subrange(0, i as int))),
        decreases cs@.len() - i,
    {
        let ghost sub = cs@.subrange(0, i + 1);
        assert(sub.drop_last() =~= cs@.subrange(0, i as int));
        assert(sub.last() == cs@[i as int]);
        let c = &cs[i];
        let mut owner = String::new();
        owner.append("connection ");
        owner.append(c.from.element.node.0.as_str());
        owner.append("->");
        owner.append(c.to.element.node.0.as_str());
        assert(owner@ =~= connection_owner(*c));
        let ghost mid = warnings@;
        check_unknown_in(&c.modifiers, &owner, warnings);
        proof {
            lemma_appended_concat(old(warnings)@, mid, warnings@, LintCategory::UnknownModifier,
                conns_unknown_msgs(cs@.subrange(0, i as int)), unknown_modifier_msgs(c.modifiers@, owner@));
        }
        i = i + 1;
    }
    assert(cs@.subrange(0, i as int) =~= cs@);
}

fn check_unknown_statement(stmt: &Statement, warnings: &mut Vec<LintWarning>)
    ensures
        appended(old(warnings)@, final(warnings)@, LintCategory::UnknownModifier, stmt_unknown_msgs(*stmt)),
    decreases stmt, 1nat,
{
    proof {
        lemma_appended_nothing(old(warnings)@, LintCategory::UnknownModifier);
    }
    match stmt {
        Statement::Shape(sh) => {
            let owner = owner_string(&sh.name);
            check_unknown_in(&sh.modifiers, &owner, warnings);
        },
        Statement::Layout(l) => {
            let owner = owner_string(&l.name);
            check_unknown_in(&l.modifiers, &owner, warnings);
            let ghost mid = warnings@;
            check_unknown_in_stmts(&l.children, warnings);
            proof {
                lemma_appended_concat(old(warnings)@, mid, warnings@, LintCategory::UnknownModifier,
                    unknown_modifier_msgs(l.modifiers@, owner@), stmts_unknown_msgs(l.children@));
            }
        },
        Statement::Group(g) => {
            let owner = owner_string(&g.name);
            check_unknown_in(&g.modifiers, &owner, warnings);
            let ghost mid = warnings@;
            check_unknown_in_stmts(&g.children, warnings);
            proof {
                lemma_appended_concat(old(warnings)@, mid, warnings@, LintCategory::UnknownModifier,
                    unknown_modifier_msgs(g.modifiers@, owner@), stmts_unknown_msgs(g.children@));
            }
        },
        Statement::Connection(cs) => {
            check_unknown_in_conns(cs, warnings);
        },
        Statement::Keyframe(kf) => {
            check_unknown_in_ops(kf, warnings);
        },
        _ => {},
    }
}

fn check_unknown_in_stmts(stmts: &Vec<Spanned<Statement>>, warnings: &mut Vec<LintWarning>)
    ensures
        appended(old(warnings)@, final(warnings)@, LintCategory::UnknownModifier, stmts_unknown_msgs(stmts@)),
    decreases stmts, 0nat,
{
    proof {
        lemma_appended_nothing(old(warnings)@, LintCategory::UnknownModifier);
    }
    let mut i: usize = 0;
    while i < stmts.len()
        invariant
            i <= stmts@.len(),
            appended(old(warnings)@, warnings@, LintCategory::UnknownModifier, stmts_unknown_msgs(stmts@.subrange(0, i as int))),
        decreases stmts@.len() - i,
    {
        let ghost sub = stmts@.subrange(0, i + 1);
        assert(sub.subrange(0, sub.len() - 1) =~= stmts@.subrange(0, i as int));
        assert(sub[sub.len() - 1] == stmts@[i as int]);
        assert(decreases_to!(stmts => stmts@[i as int].node));
        let ghost mid = warnings@;
        check_unknown_statement(&stmts[i].node, warnings);
        proof {
            lemma_appended_concat(old(warnings)@, mid, warnings@, LintCategory::UnknownModifier,
                stmts_unknown_msgs(stmts@.subrange(0, i as int)), stmt_unknown_msgs(stmts@[i as int].node));
        }
        i = i + 1;
    }
    assert(stmts@.subrange(0, i as int) =~= stmts@);
}

/// Warn about custom modifier keys that nothing reads: on shapes, layouts,
/// groups, connections and keyframe transforms.
pub fn check_unknown_modifiers(doc: &Document, warnings: &mut Vec<LintWarning>)
    ensures
        appended(old(warnings)@, final(warnings)@, LintCategory::UnknownModifier, stmts_unknown_msgs(doc.statements@)),
{
    check_unknown_in_stmts(&doc.statements, warnings);
}

// ---------------------------------------------------------------------------
// Transform keys that cannot be animated
// ---------------------------------------------------------------------------

/// A warning of category `cat` with message `msg` about the one frame `frame`.
pub open spec fn framed_warning(w: LintWarning, cat: LintCategory, msg: Seq<char>, frame: Seq<char>) -> bool {
    &&& w.category == cat
    &&& w.message@ == msg
    &&& views(w.frames@) == seq![frame]
    &&& w.pair is None
}

/// `new` is `old` followed by one framed warning per (message, frame) entry.
pub open spec fn appended_framed(old: Seq<LintWarning>, new: Seq<LintWarning>, cat: LintCategory, es: Seq<(Seq<char>, Seq<char>)>) -> bool {
    &&& new.len() == old.len() + es.len()
    &&& new.subrange(0, old.len() as int) == old
    &&& forall|j: int| 0 <= j < es.len() ==> framed_warning(#[trigger] new[old.len() + j], cat, es[j].0, es[j].1)
}

proof fn lemma_framed_push(old: Seq<LintWarning>, new: Seq<LintWarning>, cat: LintCategory, es: Seq<(Seq<char>, Seq<char>)>, w: LintWarning, e: (Seq<char>, Seq<char>))
    requires
        appended_framed(old, new, cat, es),
        framed_warning(w, cat, e.0, e.1),
    ensures
        appended_framed(old, new.push(w), cat, es.push(e)),
{
    let n2 = new.push(w);
    assert(n2.subrange(0, old.len() as int) =~= new.subrange(0, old.len() as int));
    assert forall|j: int| 0 <= j < es.push(e).len() implies framed_warning(#[trigger] n2[old.len() + j], cat, es.push(e)[j].0, es.push(e)[j].1) by {
        if j < es.len() {
            assert(n2[old.len() + j] == new[old.len() + j]);
        }
    }
}

proof fn lemma_framed_concat(a: Seq<LintWarning>, b: Seq<LintWarning>, c: Seq<LintWarning>, cat: LintCategory, m1: Seq<(Seq<char>, Seq<char>)>, m2: Seq<(Seq<char>, Seq<char>)>)
    requires
        appended_framed(a, b, cat, m1),
        appended_framed(b, c, cat, m2),
    ensures
        appended_framed(a, c, cat, m1 + m2),
{
    assert(c.subrange(0, a.len() as int) =~= c.subrange(0, b.len() as int).subrange(0, a.len() as int));
    assert forall|j: int| 0 <= j < (m1 + m2).len() implies framed_warning(#[trigger] c[a.len() + j], cat, (m1 + m2)[j].0, (m1 + m2)[j].1) by {
        if j < m1.len() {
            assert(c[a.len() + j] == c.subrange(0, b.len() as int)[a.len() + j]);
            assert(b[a.len() + j] == c[a.len() + j]);
        } else {
            let k = j - m1.len();
            assert(c[b.len() + k] == c[a.len() + j]);
        }
    }
}

proof fn lemma_framed_nothing(old: Seq<LintWarning>, cat: LintCategory)
    ensures
        appended_framed(old, old, cat, Seq::empty()),
{
    assert(old.subrange(0, old.len() as int) =~= old);
}

/// The message for a transform key that cannot be animated.
pub open spec fn unanimatable_message(k: StyleKey, target: Spanned<Identifier>, kf: KeyframeDecl) -> Seq<char> {
    "\""@ + key_name(k) + "\" on \""@ + target.node.0@ + "\" in keyframe \""@ + kf.name.node@
        + "\" cannot be animated and is ignored; set it on the element itself instead"@
}

/// (message, frame) for each recognised but unanimatable key among `mods`.
pub open spec fn unanimatable_in(mods: Seq<Spanned<StyleModifier>>, target: Spanned<Identifier>, kf: KeyframeDecl) -> Seq<(Seq<char>, Seq<char>)>
    decreases mods.len(),
{
    if mods.len() == 0 {
        Seq::empty()
    } else {
        let k = mods.last().node.key.node;
        unanimatable_in(mods.drop_last(), target, kf) + if k is Custom || super::keyframe::animatable(k) {
            Seq::empty()
        } else {
            seq![(unanimatable_message(k, target, kf), kf.name.node@)]
        }
    }
}

/// Entries of the transforms of a keyframe.
pub open spec fn unanimatable_ops(ops: Seq<Spanned<KeyframeOp>>, kf: KeyframeDecl) -> Seq<(Seq<char>, Seq<char>)>
    decreases ops.len(),
{
    if ops.len() == 0 {
        Seq::empty()
    } else {
        unanimatable_ops(ops.drop_last(), kf) + match ops.last().node {
            KeyframeOp::Transform { target, modifiers } => unanimatable_in(modifiers@, target, kf),
            _ => Seq::empty(),
        }
    }
}

/// Entries of the top-level keyframes.
pub open spec fn unanimatable_stmts(ss: Seq<Spanned<Statement>>) -> Seq<(Seq<char>, Seq<char>)>
    decreases ss.len(),
{
    if ss.len() == 0 {
        Seq::empty()
    } else {
        unanimatable_stmts(ss.drop_last()) + match ss.last().node {
            Statement::Keyframe(kf) => unanimatable_ops(kf.operations@, kf),
            _ => Seq::empty(),
        }
    }
}

fn check_unanimatable_in(mods: &Vec<Spanned<StyleModifier>>, target: &Spanned<Identifier>, kf: &KeyframeDecl, warnings: &mut Vec<LintWarning>)
    ensures
        appended_framed(old(warnings)@, final(warnings)@, LintCategory::UnknownModifier, unanimatable_in(mods@, *target, *kf)),
{
    proof {
        lemma_framed_nothing(old(warnings)@, LintCategory::UnknownModifier);
    }
    let mut i: usize = 0;
    while i < mods.len()
        invariant
            i <= mods@.len(),
            appended_framed(old(warnings)@, warnings@, LintCategory::UnknownModifier, unanimatable_in(mods@.subrange(0, i as int), *target, *kf)),
        decreases mods@.len() - i,
    {
        let ghost sub = mods@.subrange(0, i + 1);
        assert(sub.drop_last() =~= mods@.subrange(0, i as int));
        assert(sub.last() == mods@[i as int]);
        let ghost prev = unanimatable_in(mods@.subrange(0, i as int), *target, *kf);
        let key = &mods[i].node.key.node;
        let custom = match key {
            StyleKey::Custom(_) => true,
            _ => false,
        };
        if custom || super::keyframe::is_animatable(key) {
            assert(prev =~= unanimatable_in(sub, *target, *kf));
        } else {
            let name = style_key_name(key);
            let mut msg = String::new();
            msg.append("\"");
            msg.append(name.as_str());
            msg.append("\" on \"");
            msg.append(target.node.0.as_str());
            msg.append("\" in keyframe \"");
            msg.append(kf.name.node.as_str());
            msg.append("\" cannot be animated and is ignored; set it on the element itself instead");
            let mut frames: Vec<String> = Vec::new();
            frames.push(kf.name.node.clone());
            assert(views(frames@) =~= seq![kf.name.node@]);
            let w = LintWarning { category: LintCategory::UnknownModifier, message: msg, frames, pair: None };
            let ghost before = warnings@;
            let ghost wv = w;
            warnings.push(w);
            proof {
                let e = (unanimatable_message(*key, *target, *kf), kf.name.node@);
                assert(wv.message@ =~= e.0);
                lemma_framed_push(old(warnings)@, before, LintCategory::UnknownModifier, prev, wv, e);
                assert(prev.push(e) =~= unanimatable_in(sub, *target, *kf));
            }
        }
        i = i + 1;
    }
    assert(mods@.subrange(0, i as int) =~= mods@);
}

/// Report transform keys that are recognised but cannot be animated; each
/// warning names its keyframe.
pub fn check_unanimatable_transform_keys(doc: &Document, warnings: &mut Vec<LintWarning>)
    ensures
        appended_framed(old(warnings)@, final(warnings)@, LintCategory::UnknownModifier, unanimatable_stmts(doc.statements@)),
{
    proof {
        lemma_framed_nothing(old(warnings)@, LintCategory::UnknownModifier);
    }
    let mut s: usize = 0;
    while s < doc.statements.len()
        invariant
            s <= doc.statements@.len(),
            appended_framed(old(warnings)@, warnings@, LintCategory::UnknownModifier, unanimatable_stmts(doc.statements@.subrange(0, s as int))),
        decreases doc.statements@.len() - s,
    {
        let ghost ssub = doc.statements@.subrange(0, s + 1);
        assert(ssub.drop_last() =~= doc.statements@.subrange(0, s as int));
        assert(ssub.last() == doc.statements@[s as int]);
        let ghost sprev = unanimatable_stmts(doc.statements@.subrange(0, s as int));
        match &doc.statements[s].node {
            Statement::Keyframe(kf) => {
                let ghost smid = warnings@;
                let mut i: usize = 0;
                proof {
                    lemma_framed_nothing(smid, LintCategory::UnknownModifier);
                }
                while i < kf.operations.len()
                    invariant
                        i <= kf.operations@.len(),
                        appended_framed(smid, warnings@, LintCategory::UnknownModifier, unanimatable_ops(kf.operations@.subrange(0, i as int), *kf)),
                    decreases kf.operations@.len() - i,
                {
                    let ghost sub = kf.operations@.subrange(0, i + 1);
                    assert(sub.drop_last() =~= kf.operations@.subrange(0, i as int));
                    assert(sub.last() == kf.operations@[i as int]);
                    let ghost mid = warnings@;
                    match &kf.operations[i].node {
                        KeyframeOp::Transform { target, modifiers } => {
                            check_unanimatable_in(modifiers, target, kf, warnings);
                            proof {
                                lemma_framed_concat(smid, mid, warnings@, LintCategory::UnknownModifier,
                                    unanimatable_ops(kf.operations@.subrange(0, i as int), *kf), unanimatable_in(modifiers@, *target, *kf));
                            }
                        },
                        _ => {
                            assert(unanimatable_ops(sub, *kf) =~= unanimatable_ops(kf.operations@.subrange(0, i as int), *kf));
                        },
                    }
                    i = i + 1;
                }
                assert(kf.operations@.subrange(0, i as int) =~= kf.operations@);
                proof {
                    lemma_framed_concat(old(warnings)@, smid, warnings@, LintCategory::UnknownModifier, sprev, unanimatable_ops(kf.operations@, *kf));
                }
            },
            _ => {
                assert(unanimatable_stmts(ssub) =~= sprev);
            },
        }
        s = s + 1;
    }
    assert(doc.statements@.subrange(0, s as int) =~= doc.statements@);
}

// ---------------------------------------------------------------------------
// Label markup
// ---------------------------------------------------------------------------

/// The text of the first `label:` modifier with a string value.
pub open spec fn first_label(mods: Seq<Spanned<StyleModifier>>) -> Option<Seq<char>>
    decreases mods.len(),
{
    if mods.len() == 0 {
        None
    } else {
        match (mods[0].node.key.node, mods[0].node.value.node) {
            (StyleKey::Label, StyleValue::String(s)) => Some(s@),
            _ => first_label(mods.drop_first()),
        }
    }
}

/// An element's bare name, or `<anon>`.
pub open spec fn bare_name(name: Option<Spanned<Identifier>>) -> Seq<char> {
    match name {
        Some(n) => n.node.0@,
        None => "<anon>"@,
    }
}

/// The (owner, label) entry of an element, if it carries a label.
pub open spec fn label_entry(mods: Seq<Spanned<StyleModifier>>, name: Option<Spanned<Identifier>>) -> Seq<(Seq<char>, Seq<char>)> {
    match first_label(mods) {
        Some(raw) => seq![(bare_name(name), raw)],
        None => Seq::empty(),
    }
}

/// Every `label:` of a statement, with the name of the element carrying it.
pub open spec fn stmt_raw_labels(s: Statement) -> Seq<(Seq<char>, Seq<char>)>
    decreases s,
{
    match s {
        Statement::Shape(sh) => label_entry(sh.modifiers@, sh.name),
        Statement::Layout(l) => label_entry(l.modifiers@, l.name) + stmts_raw_labels(l.children@),
        Statement::Group(g) => label_entry(g.modifiers@, g.name) + stmts_raw_labels(g.children@),
        _ => Seq::empty(),
    }
}

/// Every `label:` of a list of statements, in document order.
pub open spec fn stmts_raw_labels(ss: Seq<Spanned<Statement>>) -> Seq<(Seq<char>, Seq<char>)>
    decreases ss,
{
    if ss.len() == 0 {
        Seq::empty()
    } else {
        stmts_raw_labels(ss.subrange(0, ss.len() - 1)) + stmt_raw_labels(ss[ss.len() - 1].node)
    }
}

/// The views of collected (owner, label) pairs.
pub open spec fn pair_views(v: Seq<(String, String)>) -> Seq<(Seq<char>, Seq<char>)> {
    v.map_values(|p: (String, String)| (p.0@, p.1@))
}

fn find_label(mods: &Vec<Spanned<StyleModifier>>) -> (r: Option<String>)
    ensures
        match r {
            Some(s) => first_label(mods@) == Some(s@),
            None => first_label(mods@) is None,
        },
{
    let mut i: usize = 0;
    assert(mods@.subrange(0, mods@.len() as int) =~= mods@);
    while i < mods.len()
        invariant
            i <= mods@.len(),
            first_label(mods@) == first_label(mods@.subrange(i as int, mods@.len() as int)),
        decreases mods@.len() - i,
    {
        let ghost rest = mods@.subrange(i as int, mods@.len() as int);
        assert(rest[0] == mods@[i as int]);
        assert(rest.drop_first() =~= mods@.subrange(i + 1, mods@.len() as int));
        match (&mods[i].node.key.node, &mods[i].node.value.node) {
            (StyleKey::Label, StyleValue::String(s)) => {
                return Some(s.clone());
            },
            _ => {},
        }
        i = i + 1;
    }
    None
}

fn push_label_entry(mods: &Vec<Spanned<StyleModifier>>, name: &Option<Spanned<Identifier>>, out: &mut Vec<(String, String)>)
    ensures
        pair_views(final(out)@) == pair_views(old(out)@) + label_entry(mods@, *name),
{
    match find_label(mods) {
        Some(raw) => {
            let owner = match name {
                Some(n) => n.node.0.clone(),
                None => String::from_str("<anon>"),
            };
            out.push((owner, raw));
            assert(pair_views(out@) =~= pair_views(old(out)@) + label_entry(mods@, *name));
        },
        None => {
            assert(pair_views(out@) =~= pair_views(old(out)@) + label_entry(mods@, *name));
        },
    }
}

fn collect_raw_labels_in_statement(stmt: &Statement, out: &mut Vec<(String, String)>)
    ensures
        pair_views(final(out)@) == pair_views(old(out)@) + stmt_raw_labels(*stmt),
    decreases stmt, 1nat,
{
    match stmt {
        Statement::Shape(sh) => {
            push_label_entry(&sh.modifiers, &sh.name, out);
        },
        Statement::Layout(l) => {
            push_label_entry(&l.modifiers, &l.name, out);
            collect_raw_labels(&l.children, out);
        },
        Statement::Group(g) => {
            push_label_entry(&g.modifiers, &g.name, out);
            collect_raw_labels(&g.children, out);
        },
        _ => {
            assert(pair_views(out@) =~= pair_views(old(out)@) + stmt_raw_labels(*stmt));
        },
    }
}

/// Every `label:` in the document, with the name of the element carrying it.
pub fn collect_raw_labels(stmts: &Vec<Spanned<Statement>>, out: &mut Vec<(String, String)>)
    ensures
        pair_views(final(out)@) == pair_views(old(out)@) + stmts_raw_labels(stmts@),
    decreases stmts, 0nat,
{
    let mut i: usize = 0;
    while i < stmts.len()
        invariant
            i <= stmts@.len(),
            pair_views(out@) == pair_views(old(out)@) + stmts_raw_labels(stmts@.subrange(0, i as int)),
        decreases stmts@.len() - i,
    {
        let ghost sub = stmts@.subrange(0, i + 1);
        assert(sub.subrange(0, sub.len() - 1) =~= stmts@.subrange(0, i as int));
        assert(sub[sub.len() - 1] == stmts@[i as int]);
        assert(decreases_to!(stmts => stmts@[i as int].node));
        collect_raw_labels_in_statement(&stmts[i].node, out);
        i = i + 1;
    }
    assert(stmts@.subrange(0, i as int) =~= stmts@);
}

/// End of the run of ASCII letters starting at `j`.
pub open spec fn alpha_end(cs: Seq<char>, j: int) -> int
    decreases cs.len() - j,
{
    if j < 0 || j >= cs.len() || !is_ascii_alpha(cs[j]) {
        j
    } else {
        alpha_end(cs, j + 1)
    }
}

/// The name of the tag-shaped run `<name>` or `</name>` at position `i`.
pub open spec fn tag_name_at(cs: Seq<char>, i: int) -> Option<Seq<char>> {
    if !(0 <= i < cs.len()) || cs[i] != '<' {
        None
    } else {
        let j = if i + 1 < cs.len() && cs[i + 1] == '/' {
            i + 2
        } else {
            i + 1
        };
        let k = alpha_end(cs, j);
        if k > j && k < cs.len() && cs[k] == '>' {
            Some(cs.subrange(j, k))
        } else {
            None
        }
    }
}

/// A tag-shaped run at `i` whose name (in any case) is not supported.
pub open spec fn unsupported_tag_at(cs: Seq<char>, i: int) -> Option<Seq<char>> {
    match tag_name_at(cs, i) {
        Some(n) => if supported_tags().contains(lower_seq(n)) {
            None
        } else {
            Some(n)
        },
        None => None,
    }
}

/// The unsupported tag names at positions before `n`, in order.
pub open spec fn tag_candidates(cs: Seq<char>, n: int) -> Seq<Seq<char>>
    decreases n,
{
    if n <= 0 {
        Seq::empty()
    } else {
        tag_candidates(cs, n - 1) + match unsupported_tag_at(cs, n - 1) {
            Some(t) => seq![t],
            None => Seq::empty(),
        }
    }
}

/// The distinct unsupported tag names of a label, in order of first use.
pub open spec fn unrecognised(raw: Seq<char>) -> Seq<Seq<char>> {
    dedup(tag_candidates(raw, raw.len() as int))
}

pub proof fn lemma_alpha_end(cs: Seq<char>, start: int, j: int)
    requires
        0 <= start <= j <= cs.len(),
        forall|k: int| start <= k < j ==> is_ascii_alpha(#[trigger] cs[k]),
    ensures
        alpha_end(cs, start) == alpha_end(cs, j),
    decreases j - start,
{
    if start < j {
        lemma_alpha_end(cs, start + 1, j);
    }
}

/// Tag-shaped runs in a label that the markup parser does not recognise.
/// A bare `<` with no `>` after the name, or `<` followed by a non-letter, is
/// ordinary text and is not reported.
pub fn unrecognised_tags(raw: &str) -> (r: Vec<String>)
    ensures
        views(r@) == unrecognised(raw@),
{
    let cs = chars_of(raw);
    let mut found: Vec<String> = Vec::new();
    let mut i: usize = 0;
    while i < cs.len()
        invariant
            i <= cs@.len(),
            cs@ == raw@,
            views(found@) == dedup(tag_candidates(cs@, i as int)),
        decreases cs@.len() - i,
    {
        assert(tag_candidates(cs@, i + 1) == tag_candidates(cs@, i as int) + match unsupported_tag_at(cs@, i as int) {
            Some(t) => seq![t],
            None => Seq::<Seq<char>>::empty(),
        });
        if cs[i] == '<' {
            let mut j = i + 1;
            if j < cs.len() && cs[j] == '/' {
                j = j + 1;
            }
            let start = j;
            while j < cs.len() && char_is_ascii_alpha(cs[j])
                invariant
                    start <= j <= cs@.len(),
                    forall|k: int| start <= k < j ==> is_ascii_alpha(#[trigger] cs@[k]),
                decreases cs@.len() - j,
            {
                j = j + 1;
            }
            proof {
                lemma_alpha_end(cs@, start as int, j as int);
            }
            if j > start && j < cs.len() && cs[j] == '>' {
                let name = string_of_range(&cs, start, j);
                let name_chars = chars_of(name.as_str());
                let lower = chars_to_lower(&name_chars);
                if !is_supported_tag(&lower) {
                    assert(tag_candidates(cs@, i + 1) =~= tag_candidates(cs@, i as int).push(name@));
                    assert(tag_candidates(cs@, i as int).push(name@).drop_last() =~= tag_candidates(cs@, i as int));
                    insert_id(&mut found, &name);
                } else {
                    assert(tag_candidates(cs@, i + 1) =~= tag_candidates(cs@, i as int));
                }
            } else {
                assert(tag_candidates(cs@, i + 1) =~= tag_candidates(cs@, i as int));
            }
        } else {
            assert(tag_candidates(cs@, i + 1) =~= tag_candidates(cs@, i as int));
        }
        i = i + 1;
    }
    found
}

/// The message for an unsupported tag in a label.
pub open spec fn markup_message(owner: Seq<char>, tag: Seq<char>) -> Seq<char> {
    "label on \""@ + owner + "\" contains unsupported markup <"@ + tag
        + ">; supported: <br> <b> <i> <small> <span fill=\u{2026}>"@
}

/// Messages for the unsupported tags of each label, label by label.
pub open spec fn markup_messages(labels: Seq<(Seq<char>, Seq<char>)>) -> Seq<Seq<char>>
    decreases labels.len(),
{
    if labels.len() == 0 {
        Seq::empty()
    } else {
        let l = labels.last();
        markup_messages(labels.drop_last()) + unrecognised(l.1).map_values(|t: Seq<char>| markup_message(l.0, t))
    }
}

/// Warn about tag-shaped runs in labels that the markup does not support.
pub fn check_label_markup(doc: &Document, warnings: &mut Vec<LintWarning>)
    ensures
        appended(old(warnings)@, final(warnings)@, LintCategory::Label, markup_messages(stmts_raw_labels(doc.statements@))),
{
    let mut labels: Vec<(String, String)> = Vec::new();
    collect_raw_labels(&doc.statements, &mut labels);
    let ghost ls = stmts_raw_labels(doc.statements@);
    assert(pair_views(labels@) =~= ls);
    proof {
        lemma_appended_nothing(old(warnings)@, LintCategory::Label);
    }
    let mut i: usize = 0;
    while i < labels.len()
        invariant
            i <= labels@.len(),
            pair_views(labels@) == ls,
            appended(old(warnings)@, warnings@, LintCategory::Label, markup_messages(ls.subrange(0, i as int))),
        decreases labels@.len() - i,
    {
        let ghost sub = ls.subrange(0, i + 1);
        assert(sub.drop_last() =~= ls.subrange(0, i as int));
        assert(sub.last() == ls[i as int]);
        assert(ls[i as int] == (labels@[i as int].0@, labels@[i as int].1@));
        let owner = &labels[i].0;
        let tags = unrecognised_tags(labels[i].1.as_str());
        let ghost prev = markup_messages(ls.subrange(0, i as int));
        let ghost all = unrecognised(labels@[i as int].1@).map_values(|t: Seq<char>| markup_message(owner@, t));
        let mut k: usize = 0;
        while k < tags.len()
            invariant
                k <= tags@.len(),
                views(tags@) == unrecognised(labels@[i as int].1@),
                all == unrecognised(labels@[i as int].1@).map_values(|t: Seq<char>| markup_message(owner@, t)),
                appended(old(warnings)@, warnings@, LintCategory::Label, prev + all.subrange(0, k as int)),
            decreases tags@.len() - k,
        {
            let mut msg = String::new();
            msg.append("label on \"");
            msg.append(owner.as_str());
            msg.append("\" contains unsupported markup <");
            msg.append(tags[k].as_str());
            msg.append(">; supported: <br> <b> <i> <small> <span fill=\u{2026}>");
            assert(msg@ =~= all[k as int]);
            let w = LintWarning { category: LintCategory::Label, message: msg, frames: Vec::new(), pair: None };
            let ghost before = warnings@;
            let ghost wv = w;
            warnings.push(w);
            proof {
                lemma_appended_push(old(warnings)@, before, LintCategory::Label, prev + all.subrange(0, k as int), wv, wv.message@);
                assert((prev + all.subrange(0, k as int)).push(wv.message@) =~= prev + all.subrange(0, k + 1));
            }
            k = k + 1;
        }
        assert(all.subrange(0, k as int) =~= all);
        assert(markup_messages(sub) == prev + all);
        i = i + 1;
    }
    assert(ls.subrange(0, i as int) =~= ls);
}

// ---------------------------------------------------------------------------
// Constraint expressions in messages
// ---------------------------------------------------------------------------

/// `element.property` as written.
pub open spec fn prop_ref_text(p: PropertyRef) -> Seq<char> {
    p.element.node.path_text() + "."@ + property_name(p.property.node)
}

/// A constraint expression as shown in warning messages; `contains` and
/// `midpoint` show as empty text.
pub open spec fn constraint_expr_text(e: ConstraintExpr) -> Seq<char> {
    match e {
        ConstraintExpr::Equal { left, right } => prop_ref_text(left) + " = "@ + prop_ref_text(right),
        ConstraintExpr::EqualWithOffset { left, right, offset } => if offset.milli >= 0 {
            prop_ref_text(left) + " = "@ + prop_ref_text(right) + " + "@ + num_text(offset)
        } else {
            prop_ref_text(left) + " = "@ + prop_ref_text(right) + " - "@ + magnitude_text(offset.milli as int)
        },
        ConstraintExpr::Constant { left, value } => prop_ref_text(left) + " = "@ + num_text(value),
        ConstraintExpr::GreaterOrEqual { left, value } => prop_ref_text(left) + " >= "@ + num_text(value),
        ConstraintExpr::LessOrEqual { left, value } => prop_ref_text(left) + " <= "@ + num_text(value),
        _ => Seq::empty(),
    }
}

fn push_prop_ref(s: &mut String, p: &PropertyRef)
    ensures
        final(s)@ == old(s)@ + prop_ref_text(*p),
{
    let path = p.element.node.to_text();
    s.append(path.as_str());
    s.append(".");
    s.append(property_display_name(&p.property.node));
    assert(final(s)@ =~= old(s)@ + prop_ref_text(*p));
}

/// Format a constraint expression for display in warning messages.
pub fn format_constraint_expr(expr: &ConstraintExpr) -> (r: String)
    ensures
        r@ == constraint_expr_text(*expr),
{
    let mut s = String::new();
    match expr {
        ConstraintExpr::Equal { left, right } => {
            push_prop_ref(&mut s, left);
            s.append(" = ");
            push_prop_ref(&mut s, right);
        },
        ConstraintExpr::EqualWithOffset { left, right, offset } => {
            push_prop_ref(&mut s, left);
            s.append(" = ");
            push_prop_ref(&mut s, right);
            if offset.is_nonneg() {
                s.append(" + ");
                offset.push_text(&mut s);
            } else {
                s.append(" - ");
                offset.push_magnitude(&mut s);
            }
        },
        ConstraintExpr::Constant { left, value } => {
            push_prop_ref(&mut s, left);
            s.append(" = ");
            value.push_text(&mut s);
        },
        ConstraintExpr::GreaterOrEqual { left, value } => {
            push_prop_ref(&mut s, left);
            s.append(" >= ");
            value.push_text(&mut s);
        },
        ConstraintExpr::LessOrEqual { left, value } => {
            push_prop_ref(&mut s, left);
            s.append(" <= ");
            value.push_text(&mut s);
        },
        _ => {},
    }
    assert(s@ =~= constraint_expr_text(*expr));
    s
}

/// How an element is named in warnings: its id in quotes, or its position
/// among its parent's children.
pub open spec fn display_name(id: Option<Seq<char>>, parent: Option<Seq<char>>, child_index: nat) -> Seq<char> {
    match id {
        Some(i) => "\""@ + i + "\""@,
        None => "<child #"@ + decimal(child_index + 1) + " of "@ + match parent {
            Some(p) => p,
            None => "root"@,
        } + ">"@,
    }
}

/// Name an element for a warning: `"id"` when it has an id, else
/// `<child #n of parent>` counting from one.
pub fn element_display_name(id: Option<&str>, parent_name: Option<&str>, child_index: usize) -> (r: String)
    requires
        child_index < usize::MAX,
    ensures
        r@ == display_name(
            match id {
                Some(i) => Some(i@),
                None => None,
            },
            match parent_name {
                Some(p) => Some(p@),
                None => None,
            },
            child_index as nat,
        ),
{
    let mut s = String::new();
    match id {
        Some(i) => {
            s.append("\"");
            s.append(i);
            s.append("\"");
        },
        None => {
            s.append("<child #");
            let n = child_index + 1;
            s.append(usize_to_string(n).as_str());
            s.append(" of ");
            match parent_name {
                Some(p) => s.append(p),
                None => s.append("root"),
            }
            s.append(">");
        },
    }
    proof {
        let idv = match id {
            Some(i) => Some(i@),
            None => None::<Seq<char>>,
        };
        let pv = match parent_name {
            Some(p) => Some(p@),
            None => None::<Seq<char>>,
        };
        assert(s@ =~= display_name(idv, pv, child_index as nat));
    }
    s
}

// ---------------------------------------------------------------------------
// Constraints a later constrain statement overrode
// ---------------------------------------------------------------------------

/// `element.property`, as an over-constrained message names a constraint.
pub open spec fn qualified_name(p: (Seq<char>, Seq<char>)) -> Seq<char> {
    p.0 + "."@ + p.1
}

/// The (element, property) texts of a list of overridden constraints.
pub open spec fn pair_texts(v: Seq<(String, String)>) -> Seq<(Seq<char>, Seq<char>)> {
    v.map_values(|p: (String, String)| (p.0@, p.1@))
}

/// An over-constrained warning about a constraint that was overridden: the
/// constraint never reached the solver, so the warning describes nothing.
pub open spec fn superseded(w: LintWarning, ov: Seq<(Seq<char>, Seq<char>)>) -> bool {
    w.category == LintCategory::OverConstrained && exists|i: int|
        0 <= i < ov.len() && contains_seq(w.message@, #[trigger] qualified_name(ov[i]))
}

/// The warnings that are not superseded, in order.
pub open spec fn drop_superseded(ws: Seq<LintWarning>, ov: Seq<(Seq<char>, Seq<char>)>) -> Seq<LintWarning>
    decreases ws.len(),
{
    if ws.len() == 0 {
        Seq::empty()
    } else {
        let rest = drop_superseded(ws.drop_last(), ov);
        if superseded(ws.last(), ov) {
            rest
        } else {
            rest.push(ws.last())
        }
    }
}

/// The message for an overridden constraint.
pub open spec fn override_message(p: (Seq<char>, Seq<char>)) -> Seq<char> {
    "a later constrain on \""@ + p.0 + "\"."@ + p.1
        + " overrides an earlier one; the last statement wins \u{2014} delete the earlier one if that was intended"@
}

fn is_superseded(w: &LintWarning, overridden: &Vec<(String, String)>) -> (r: bool)
    ensures
        r == superseded(*w, pair_texts(overridden@)),
{
    let ghost ov = pair_texts(overridden@);
    match w.category {
        LintCategory::OverConstrained => {},
        _ => {
            return false;
        },
    }
    let mut i: usize = 0;
    while i < overridden.len()
        invariant
            i <= overridden@.len(),
            ov == pair_texts(overridden@),
            w.category == LintCategory::OverConstrained,
            forall|j: int| 0 <= j < i ==> !contains_seq(w.message@, #[trigger] qualified_name(ov[j])),
        decreases overridden@.len() - i,
    {
        let mut q = String::new();
        q.append(overridden[i].0.as_str());
        q.append(".");
        q.append(overridden[i].1.as_str());
        assert(q@ =~= qualified_name(ov[i as int]));
        if str_contains(w.message.as_str(), q.as_str()) {
            assert(contains_seq(w.message@, qualified_name(ov[i as int])));
            return true;
        }
        i = i + 1;
    }
    false
}

/// Replace over-constrained warnings about overridden constraints with one
/// warning per overridden (element, property): a later `constrain` of the
/// same property replaced the earlier one, and the last statement wins.
pub fn check_overridden_constraints(overridden: &Vec<(String, String)>, warnings: &mut Vec<LintWarning>)
    ensures
        appended(
            drop_superseded(old(warnings)@, pair_texts(overridden@)),
            final(warnings)@,
            LintCategory::OverriddenConstraint,
            pair_texts(overridden@).map_values(|p: (Seq<char>, Seq<char>)| override_message(p)),
        ),
{
    let ghost ov = pair_texts(overridden@);
    let ghost orig = warnings@;
    let mut i: usize = 0;
    let ghost mut j: int = 0;
    while i < warnings.len()
        invariant
            0 <= i <= j <= orig.len(),
            i <= warnings@.len(),
            ov == pair_texts(overridden@),
            warnings@.subrange(0, i as int) == drop_superseded(orig.subrange(0, j), ov),
            warnings@.subrange(i as int, warnings@.len() as int) == orig.subrange(j, orig.len() as int),
        decreases warnings@.len() - i,
    {
        let ghost e = warnings@;
        assert(e.subrange(i as int, e.len() as int).len() == e.len() - i);
        assert(j < orig.len());
        assert(orig.subrange(0, j + 1).drop_last() =~= orig.subrange(0, j));
        assert(e.subrange(i as int, e.len() as int)[0] == orig.subrange(j, orig.len() as int)[0]);
        assert(e[i as int] == orig[j]);
        assert(orig.subrange(0, j + 1).last() == orig[j]);
        assert(e.subrange(i + 1, e.len() as int) =~= e.subrange(i as int, e.len() as int).subrange(1, e.len() - i));
        assert(orig.subrange(j + 1, orig.len() as int) =~= orig.subrange(j, orig.len() as int).subrange(1, orig.len() - j));
        if is_superseded(&warnings[i], overridden) {
            let _ = warnings.remove(i);
            assert(warnings@.subrange(0, i as int) =~= e.subrange(0, i as int));
            assert(warnings@.subrange(i as int, warnings@.len() as int) =~= e.subrange(i + 1, e.len() as int));
        } else {
            assert(warnings@.subrange(0, i + 1) =~= e.subrange(0, i as int).push(orig[j]));
            i = i + 1;
        }
        proof {
            j = j + 1;
        }
    }
    assert(warnings@.subrange(i as int, warnings@.len() as int).len() == 0);
    assert(warnings@ =~= warnings@.subrange(0, i as int));
    assert(orig.subrange(0, j) =~= orig);
    let ghost kept = warnings@;
    let ghost msgs = ov.map_values(|p: (Seq<char>, Seq<char>)| override_message(p));
    proof {
        lemma_appended_nothing(kept, LintCategory::OverriddenConstraint);
        assert(msgs.subrange(0, 0) =~= Seq::<Seq<char>>::empty());
    }
    let mut k: usize = 0;
    while k < overridden.len()
        invariant
            k <= overridden@.len(),
            ov == pair_texts(overridden@),
            msgs == ov.map_values(|p: (Seq<char>, Seq<char>)| override_message(p)),
            appended(kept, warnings@, LintCategory::OverriddenConstraint, msgs.subrange(0, k as int)),
        decreases overridden@.len() - k,
    {
        let mut msg = String::new();
        msg.append("a later constrain on \"");
        msg.append(overridden[k].0.as_str());
        msg.append("\".");
        msg.append(overridden[k].1.as_str());
        msg.append(" overrides an earlier one; the last statement wins \u{2014} delete the earlier one if that was intended");
        assert(msg@ =~= msgs[k as int]);
        let w = LintWarning { category: LintCategory::OverriddenConstraint, message: msg, frames: Vec::new(), pair: None };
        let ghost before = warnings@;
        let ghost wv = w;
        warnings.push(w);
        proof {
            lemma_appended_push(kept, before, LintCategory::OverriddenConstraint, msgs.subrange(0, k as int), wv, wv.message@);
            assert(msgs.subrange(0, k as int).push(wv.message@) =~= msgs.subrange(0, k + 1));
        }
        k = k + 1;
    }
    assert(msgs.subrange(0, k as int) =~= msgs);
}

// ---------------------------------------------------------------------------
// Duplicate warnings
// ---------------------------------------------------------------------------

/// What makes two warnings the same defect.
pub open spec fn warning_key(w: LintWarning) -> (LintCategory, Seq<char>) {
    (w.category, w.message@)
}

/// The warnings with exact duplicates dropped, first occurrences kept.
pub open spec fn dedup_by_key(ws: Seq<LintWarning>) -> Seq<LintWarning>
    decreases ws.len(),
{
    if ws.len() == 0 {
        Seq::empty()
    } else {
        let d = dedup_by_key(ws.drop_last());
        if exists|i: int| 0 <= i < d.len() && warning_key(#[trigger] d[i]) == warning_key(ws.last()) {
            d
        } else {
            d.push(ws.last())
        }
    }
}

/// The view of a warning's pair.
pub open spec fn pair_view(p: Option<(String, String)>) -> Option<(Seq<char>, Seq<char>)> {
    match p {
        Some(q) => Some((q.0@, q.1@)),
        None => None,
    }
}

/// The pairs that some label warning is about.
pub open spec fn labelled_pairs(ws: Seq<LintWarning>) -> Set<(Seq<char>, Seq<char>)> {
    Set::new(|p: (Seq<char>, Seq<char>)| exists|i: int| 0 <= i < ws.len() && (#[trigger] ws[i]).category == LintCategory::Label && pair_view(ws[i].pair) == Some(p))
}

/// An overlap warning about a pair that a label warning already reports.
pub open spec fn shadowed(w: LintWarning, labelled: Set<(Seq<char>, Seq<char>)>) -> bool {
    w.category == LintCategory::Overlap && match pair_view(w.pair) {
        Some(p) => labelled.contains(p),
        None => false,
    }
}

/// The warnings that are not shadowed, in order.
pub open spec fn drop_shadowed(ws: Seq<LintWarning>, labelled: Set<(Seq<char>, Seq<char>)>) -> Seq<LintWarning>
    decreases ws.len(),
{
    if ws.len() == 0 {
        Seq::empty()
    } else {
        let rest = drop_shadowed(ws.drop_last(), labelled);
        if shadowed(ws.last(), labelled) {
            rest
        } else {
            rest.push(ws.last())
        }
    }
}

/// What `dedup_warnings` leaves of a list of warnings.
pub open spec fn deduped_warnings(ws: Seq<LintWarning>) -> Seq<LintWarning> {
    drop_shadowed(dedup_by_key(ws), labelled_pairs(dedup_by_key(ws)))
}

/// No two warnings are the same defect.
pub open spec fn distinct_keys(ws: Seq<LintWarning>) -> bool {
    forall|i: int, j: int| 0 <= i < j < ws.len() ==> warning_key(#[trigger] ws[i]) != warning_key(#[trigger] ws[j])
}

proof fn lemma_dedup_by_key_distinct(ws: Seq<LintWarning>)
    ensures
        distinct_keys(dedup_by_key(ws)),
    decreases ws.len(),
{
    if ws.len() > 0 {
        lemma_dedup_by_key_distinct(ws.drop_last());
        let d = dedup_by_key(ws.drop_last());
        if !(exists|i: int| 0 <= i < d.len() && warning_key(#[trigger] d[i]) == warning_key(ws.last())) {
            let n = d.push(ws.last());
            assert forall|i: int, j: int| 0 <= i < j < n.len() implies warning_key(#[trigger] n[i]) != warning_key(#[trigger] n[j]) by {
                assert(n[i] == d[i]);
                if j < d.len() {
                    assert(n[j] == d[j]);
                }
            }
        }
    }
}

proof fn lemma_drop_shadowed_distinct(ws: Seq<LintWarning>, labelled: Set<(Seq<char>, Seq<char>)>)
    ensures
        forall|i: int| 0 <= i < drop_shadowed(ws, labelled).len() ==> ws.contains(#[trigger] drop_shadowed(ws, labelled)[i]),
        distinct_keys(ws) ==> distinct_keys(drop_shadowed(ws, labelled)),
    decreases ws.len(),
{
    if ws.len() > 0 {
        let p = ws.drop_last();
        lemma_drop_shadowed_distinct(p, labelled);
        let d = drop_shadowed(p, labelled);
        let r = drop_shadowed(ws, labelled);
        assert forall|i: int| 0 <= i < r.len() implies ws.contains(#[trigger] r[i]) by {
            if i < d.len() {
                assert(r[i] == d[i]);
                assert(p.contains(d[i]));
                let k = choose|k: int| 0 <= k < p.len() && p[k] == d[i];
                assert(ws[k] == d[i]);
            } else {
                assert(ws[ws.len() - 1] == r[i]);
            }
        }
        if distinct_keys(ws) && !shadowed(ws.last(), labelled) {
            assert(distinct_keys(p)) by {
                assert forall|i: int, j: int| 0 <= i < j < p.len() implies warning_key(#[trigger] p[i]) != warning_key(#[trigger] p[j]) by {
                    assert(p[i] == ws[i] && p[j] == ws[j]);
                }
            }
            assert forall|i: int, j: int| 0 <= i < j < r.len() implies warning_key(#[trigger] r[i]) != warning_key(#[trigger] r[j]) by {
                assert(r[i] == d[i]);
                if j < d.len() {
                    assert(r[j] == d[j]);
                } else {
                    assert(p.contains(d[i]));
                    let k = choose|k: int| 0 <= k < p.len() && p[k] == d[i];
                    assert(ws[k] == d[i]);
                    assert(ws[ws.len() - 1] == r[j]);
                }
            }
        }
    }
}

/// After `dedup_warnings` no two warnings report the same defect.
pub proof fn lemma_dedup_warnings_distinct(ws: Seq<LintWarning>)
    ensures
        distinct_keys(deduped_warnings(ws)),
{
    lemma_dedup_by_key_distinct(ws);
    lemma_drop_shadowed_distinct(dedup_by_key(ws), labelled_pairs(dedup_by_key(ws)));
}

proof fn lemma_dedup_by_key_distinct_identity(ws: Seq<LintWarning>)
    requires
        distinct_keys(ws),
    ensures
        dedup_by_key(ws) == ws,
    decreases ws.len(),
{
    if ws.len() > 0 {
        let p = ws.drop_last();
        assert(distinct_keys(p)) by {
            assert forall|i: int, j: int| 0 <= i < j < p.len() implies warning_key(#[trigger] p[i]) != warning_key(#[trigger] p[j]) by {
                assert(p[i] == ws[i] && p[j] == ws[j]);
            }
        }
        lemma_dedup_by_key_distinct_identity(p);
        assert(!(exists|i: int| 0 <= i < p.len() && warning_key(#[trigger] p[i]) == warning_key(ws.last()))) by {
            assert forall|i: int| 0 <= i < p.len() implies warning_key(#[trigger] p[i]) != warning_key(ws.last()) by {
                assert(p[i] == ws[i]);
                assert(ws[ws.len() - 1] == ws.last());
            }
        }
        assert(p.push(ws.last()) =~= ws);
    }
}

proof fn lemma_drop_shadowed_keeps(ws: Seq<LintWarning>, labelled: Set<(Seq<char>, Seq<char>)>)
    ensures
        forall|i: int| 0 <= i < ws.len() && !shadowed(#[trigger] ws[i], labelled) ==> drop_shadowed(ws, labelled).contains(ws[i]),
        forall|i: int| 0 <= i < drop_shadowed(ws, labelled).len() ==> !shadowed(#[trigger] drop_shadowed(ws, labelled)[i], labelled),
    decreases ws.len(),
{
    if ws.len() > 0 {
        let p = ws.drop_last();
        lemma_drop_shadowed_keeps(p, labelled);
        let d = drop_shadowed(p, labelled);
        let r = drop_shadowed(ws, labelled);
        assert forall|i: int| 0 <= i < ws.len() && !shadowed(#[trigger] ws[i], labelled) implies r.contains(ws[i]) by {
            if i < ws.len() - 1 {
                assert(p[i] == ws[i]);
                assert(d.contains(ws[i]));
                let k = choose|k: int| 0 <= k < d.len() && d[k] == ws[i];
                assert(r[k] == ws[i]);
            } else {
                assert(r[r.len() - 1] == ws[i]);
            }
        }
        assert forall|i: int| 0 <= i < r.len() implies !shadowed(#[trigger] r[i], labelled) by {
            if i < d.len() {
                assert(r[i] == d[i]);
            }
        }
    }
}

proof fn lemma_drop_shadowed_none(ws: Seq<LintWarning>, labelled: Set<(Seq<char>, Seq<char>)>)
    requires
        forall|i: int| 0 <= i < ws.len() ==> !shadowed(#[trigger] ws[i], labelled),
    ensures
        drop_shadowed(ws, labelled) == ws,
    decreases ws.len(),
{
    if ws.len() > 0 {
        let p = ws.drop_last();
        assert forall|i: int| 0 <= i < p.len() implies !shadowed(#[trigger] p[i], labelled) by {
            assert(p[i] == ws[i]);
        }
        lemma_drop_shadowed_none(p, labelled);
        assert(!shadowed(ws[ws.len() - 1], labelled));
        assert(p.push(ws.last()) =~= ws);
    }
}

/// Deduplicating twice is deduplicating once: a second call of
/// `dedup_warnings` changes nothing.
pub proof fn lemma_dedup_warnings_idempotent(ws: Seq<LintWarning>)
    ensures
        deduped_warnings(deduped_warnings(ws)) == deduped_warnings(ws),
{
    let d = dedup_by_key(ws);
    let l = labelled_pairs(d);
    let r = drop_shadowed(d, l);
    lemma_dedup_warnings_distinct(ws);
    lemma_dedup_by_key_distinct_identity(r);
    lemma_drop_shadowed_keeps(d, l);
    lemma_drop_shadowed_distinct(d, l);
    assert(labelled_pairs(r) =~= l) by {
        assert forall|p: (Seq<char>, Seq<char>)| labelled_pairs(r).contains(p) implies l.contains(p) by {
            let i = choose|i: int| 0 <= i < r.len() && (#[trigger] r[i]).category == LintCategory::Label && pair_view(r[i].pair) == Some(p);
            assert(d.contains(r[i]));
            let k = choose|k: int| 0 <= k < d.len() && d[k] == r[i];
            assert(d[k].category == LintCategory::Label && pair_view(d[k].pair) == Some(p));
        }
        assert forall|p: (Seq<char>, Seq<char>)| l.contains(p) implies labelled_pairs(r).contains(p) by {
            let i = choose|i: int| 0 <= i < d.len() && (#[trigger] d[i]).category == LintCategory::Label && pair_view(d[i].pair) == Some(p);
            assert(!shadowed(d[i], l));
            assert(r.contains(d[i]));
            let k = choose|k: int| 0 <= k < r.len() && r[k] == d[i];
            assert(r[k].category == LintCategory::Label && pair_view(r[k].pair) == Some(p));
        }
    }
    lemma_drop_shadowed_none(r, l);
}

fn same_warning_key(a: &LintWarning, b: &LintWarning) -> (r: bool)
    ensures
        r == (warning_key(*a) == warning_key(*b)),
{
    a.category == b.category && str_eq(a.message.as_str(), b.message.as_str())
}

/// Drop exact duplicates (same category and message), keeping the first
/// occurrence; then drop overlap warnings about a pair that a label warning
/// already reports.
pub fn dedup_warnings(warnings: &mut Vec<LintWarning>)
    ensures
        final(warnings)@ == deduped_warnings(old(warnings)@),
{
    let ghost orig = warnings@;
    let mut i: usize = 0;
    let ghost mut j: int = 0;
    while i < warnings.len()
        invariant
            0 <= i <= j <= orig.len(),
            i <= warnings@.len(),
            warnings@.subrange(0, i as int) == dedup_by_key(orig.subrange(0, j)),
            warnings@.subrange(i as int, warnings@.len() as int) == orig.subrange(j, orig.len() as int),
        decreases warnings@.len() - i,
    {
        let ghost e = warnings@;
        assert(e.subrange(i as int, e.len() as int).len() == e.len() - i);
        assert(j < orig.len());
        assert(orig.subrange(0, j + 1).drop_last() =~= orig.subrange(0, j));
        assert(e.subrange(i as int, e.len() as int)[0] == orig.subrange(j, orig.len() as int)[0]);
        assert(e[i as int] == orig[j]);
        assert(orig.subrange(0, j + 1).last() == orig[j]);
        assert(e.subrange(i + 1, e.len() as int) =~= e.subrange(i as int, e.len() as int).subrange(1, e.len() - i));
        assert(orig.subrange(j + 1, orig.len() as int) =~= orig.subrange(j, orig.len() as int).subrange(1, orig.len() - j));
        let ghost d = dedup_by_key(orig.subrange(0, j));
        let mut dup = false;
        let mut k: usize = 0;
        while k < i
            invariant
                k <= i,
                i < warnings@.len(),
                warnings@ == e,
                e.subrange(0, i as int) == d,
                dup == exists|q: int| 0 <= q < k && warning_key(#[trigger] d[q]) == warning_key(e[i as int]),
            decreases i - k,
        {
            if !dup && same_warning_key(&warnings[k], &warnings[i]) {
                dup = true;
                assert(d[k as int] == e[k as int]);
                assert(warning_key(d[k as int]) == warning_key(e[i as int]));
            }
            if !dup {
                assert(d[k as int] == e[k as int]);
            }
            k = k + 1;
        }
        if dup {
            let _ = warnings.remove(i);
            assert(warnings@.subrange(0, i as int) =~= e.subrange(0, i as int));
            assert(warnings@.subrange(i as int, warnings@.len() as int) =~= e.subrange(i + 1, e.len() as int));
        } else {
            assert(warnings@.subrange(0, i + 1) =~= e.subrange(0, i as int).push(orig[j]));
            i = i + 1;
        }
        proof {
            j = j + 1;
        }
    }
    assert(warnings@.subrange(i as int, warnings@.len() as int).len() == 0);
    assert(warnings@ =~= warnings@.subrange(0, i as int));
    assert(orig.subrange(0, j) =~= orig);
    let ghost deduped = warnings@;
    let ghost labelled = labelled_pairs(deduped);
    // The pairs that label warnings are about.
    let mut pairs: Vec<(String, String)> = Vec::new();
    let mut k: usize = 0;
    while k < warnings.len()
        invariant
            k <= warnings@.len(),
            warnings@ == deduped,
            forall|p: (Seq<char>, Seq<char>)| pair_views(pairs@).contains(p) <==> exists|q: int| 0 <= q < k && (#[trigger] deduped[q]).category == LintCategory::Label && pair_view(deduped[q].pair) == Some(p),
        decreases warnings@.len() - k,
    {
        let ghost before = pairs@;
        if warnings[k].category == LintCategory::Label {
            match &warnings[k].pair {
                Some(p) => {
                    pairs.push((p.0.clone(), p.1.clone()));
                    assert(pair_views(pairs@) =~= pair_views(before).push((p.0@, p.1@)));
                },
                None => {},
            }
        }
        assert forall|p: (Seq<char>, Seq<char>)| pair_views(pairs@).contains(p) <==> exists|q: int| 0 <= q < k + 1 && (#[trigger] deduped[q]).category == LintCategory::Label && pair_view(deduped[q].pair) == Some(p) by {
            if pair_views(pairs@).contains(p) && !pair_views(before).contains(p) {
                assert(deduped[k as int].category == LintCategory::Label && pair_view(deduped[k as int].pair) == Some(p));
            }
            if exists|q: int| 0 <= q < k + 1 && (#[trigger] deduped[q]).category == LintCategory::Label && pair_view(deduped[q].pair) == Some(p) {
                let q = choose|q: int| 0 <= q < k + 1 && (#[trigger] deduped[q]).category == LintCategory::Label && pair_view(deduped[q].pair) == Some(p);
                if q == k {
                    let idx = pair_views(pairs@).len() - 1;
                    assert(pair_views(pairs@)[idx] == p);
                } else {
                    assert(pair_views(before).contains(p));
                    let idx = choose|idx: int| 0 <= idx < pair_views(before).len() && pair_views(before)[idx] == p;
                    assert(pair_views(pairs@)[idx] == p);
                }
            }
        }
        k = k + 1;
    }
    let mut i: usize = 0;
    let ghost mut j: int = 0;
    while i < warnings.len()
        invariant
            0 <= i <= j <= deduped.len(),
            i <= warnings@.len(),
            labelled == labelled_pairs(deduped),
            forall|p: (Seq<char>, Seq<char>)| pair_views(pairs@).contains(p) <==> labelled.contains(p),
            warnings@.subrange(0, i as int) == drop_shadowed(deduped.subrange(0, j), labelled),
            warnings@.subrange(i as int, warnings@.len() as int) == deduped.subrange(j, deduped.len() as int),
        decreases warnings@.len() - i,
    {
        let ghost e = warnings@;
        assert(e.subrange(i as int, e.len() as int).len() == e.len() - i);
        assert(j < deduped.len());
        assert(deduped.subrange(0, j + 1).drop_last() =~= deduped.subrange(0, j));
        assert(e.subrange(i as int, e.len() as int)[0] == deduped.subrange(j, deduped.len() as int)[0]);
        assert(e[i as int] == deduped[j]);
        assert(deduped.subrange(0, j + 1).last() == deduped[j]);
        assert(e.subrange(i + 1, e.len() as int) =~= e.subrange(i as int, e.len() as int).subrange(1, e.len() - i));
        assert(deduped.subrange(j + 1, deduped.len() as int) =~= deduped.subrange(j, deduped.len() as int).subrange(1, deduped.len() - j));
        let drop = if warnings[i].category == LintCategory::Overlap {
            match &warnings[i].pair {
                Some(p) => {
                    let mut hit = false;
                    let mut q: usize = 0;
                    while q < pairs.len()
                        invariant
                            q <= pairs@.len(),
                            hit == pair_views(pairs@).subrange(0, q as int).contains((p.0@, p.1@)),
                        decreases pairs@.len() - q,
                    {
                        let ghost sq = pair_views(pairs@).subrange(0, q + 1);
                        assert(sq =~= pair_views(pairs@).subrange(0, q as int).push((pairs@[q as int].0@, pairs@[q as int].1@)));
                        let m = str_eq(pairs[q].0.as_str(), p.0.as_str()) && str_eq(pairs[q].1.as_str(), p.1.as_str());
                        assert(sq[q as int] == (pairs@[q as int].0@, pairs@[q as int].1@));
                        assert(m == (sq[q as int] == (p.0@, p.1@)));
                        if m {
                            hit = true;
                        }
                        assert(hit == sq.contains((p.0@, p.1@))) by {
                            if sq.contains((p.0@, p.1@)) {
                                let z = choose|z: int| 0 <= z < sq.len() && sq[z] == (p.0@, p.1@);
                                if z < q {
                                    assert(pair_views(pairs@).subrange(0, q as int)[z] == (p.0@, p.1@));
                                }
                            }
                            if m {
                                assert(sq[q as int] == (p.0@, p.1@));
                            }
                            if pair_views(pairs@).subrange(0, q as int).contains((p.0@, p.1@)) {
                                let z = choose|z: int| 0 <= z < q && pair_views(pairs@).subrange(0, q as int)[z] == (p.0@, p.1@);
                                assert(sq[z] == (p.0@, p.1@));
                            }
                        }
                        q = q + 1;
                    }
                    assert(pair_views(pairs@).subrange(0, q as int) =~= pair_views(pairs@));
                    hit
                },
                None => false,
            }
        } else {
            false
        };
        assert(drop == shadowed(deduped[j], labelled));
        if drop {
            let _ = warnings.remove(i);
            assert(warnings@.subrange(0, i as int) =~= e.subrange(0, i as int));
            assert(warnings@.subrange(i as int, warnings@.len() as int) =~= e.subrange(i + 1, e.len() as int));
        } else {
            assert(warnings@.subrange(0, i + 1) =~= e.subrange(0, i as int).push(deduped[j]));
            i = i + 1;
        }
        proof {
            j = j + 1;
        }
    }
    assert(warnings@.subrange(i as int, warnings@.len() as int).len() == 0);
    assert(warnings@ =~= warnings@.subrange(0, i as int));
    assert(deduped.subrange(0, j) =~= deduped);
}

// ---------------------------------------------------------------------------
// Warnings found frame by frame
// ---------------------------------------------------------------------------

/// The defect keys of a frame's warnings, in order.
pub open spec fn frame_keys(ws: Seq<LintWarning>) -> Seq<(LintCategory, Seq<char>)> {
    ws.map_values(|w: LintWarning| warning_key(w))
}

/// The defect keys of all frames, frame by frame.
pub open spec fn all_frame_keys(pf: Seq<(String, Vec<LintWarning>)>) -> Seq<(LintCategory, Seq<char>)>
    decreases pf.len(),
{
    if pf.len() == 0 {
        Seq::empty()
    } else {
        all_frame_keys(pf.drop_last()) + frame_keys(pf.last().1@)
    }
}

/// Keys with repeats dropped, first occurrences kept.
pub open spec fn dedup_keys(s: Seq<(LintCategory, Seq<char>)>) -> Seq<(LintCategory, Seq<char>)>
    decreases s.len(),
{
    if s.len() == 0 {
        Seq::empty()
    } else {
        let d = dedup_keys(s.drop_last());
        if d.contains(s.last()) {
            d
        } else {
            d.push(s.last())
        }
    }
}

/// The names of the frames in which defect `k` occurs, in frame order.
pub open spec fn frames_with(pf: Seq<(String, Vec<LintWarning>)>, k: (LintCategory, Seq<char>)) -> Seq<Seq<char>>
    decreases pf.len(),
{
    if pf.len() == 0 {
        Seq::empty()
    } else {
        frames_with(pf.drop_last(), k) + if frame_keys(pf.last().1@).contains(k) {
            seq![pf.last().0@]
        } else {
            Seq::empty()
        }
    }
}

/// The merged warning for defect `k`: its frames, or none when it occurs in
/// every frame.
pub open spec fn merged_warning(w: LintWarning, pf: Seq<(String, Vec<LintWarning>)>, k: (LintCategory, Seq<char>)) -> bool {
    &&& warning_key(w) == k
    &&& views(w.frames@) == if frames_with(pf, k).len() == pf.len() {
        Seq::empty()
    } else {
        frames_with(pf, k)
    }
    &&& w.pair is None
}

proof fn lemma_dedup_keys_contains(s: Seq<(LintCategory, Seq<char>)>, k: (LintCategory, Seq<char>))
    ensures
        dedup_keys(s).contains(k) == s.contains(k),
    decreases s.len(),
{
    if s.len() > 0 {
        lemma_dedup_keys_contains(s.drop_last(), k);
        let d = dedup_keys(s.drop_last());
        if s.contains(k) {
            let q = choose|q: int| 0 <= q < s.len() && s[q] == k;
            if q < s.len() - 1 {
                assert(s.drop_last()[q] == k);
            }
        }
        if s.drop_last().contains(k) {
            let q = choose|q: int| 0 <= q < s.drop_last().len() && s.drop_last()[q] == k;
            assert(s[q] == k);
        }
        if !d.contains(s.last()) {
            if d.push(s.last()).contains(k) {
                let q = choose|q: int| 0 <= q < d.push(s.last()).len() && d.push(s.last())[q] == k;
                if q < d.len() {
                    assert(d[q] == k);
                }
            }
            if d.contains(k) {
                let q = choose|q: int| 0 <= q < d.len() && d[q] == k;
                assert(d.push(s.last())[q] == k);
            }
            assert(d.push(s.last())[d.len() as int] == s.last());
        }
    }
}

proof fn lemma_dedup_keys_distinct(s: Seq<(LintCategory, Seq<char>)>)
    ensures
        dedup_keys(s).no_duplicates(),
    decreases s.len(),
{
    if s.len() > 0 {
        lemma_dedup_keys_distinct(s.drop_last());
    }
}

fn same_key_pair(a: &(LintCategory, String), c: LintCategory, m: &String) -> (r: bool)
    ensures
        r == ((a.0, a.1@) == (c, m@)),
{
    a.0 == c && str_eq(a.1.as_str(), m.as_str())
}

/// Collapse per-frame warnings into one warning per distinct defect (same
/// category and message), in order of first sight. A defect seen in every
/// frame is reported bare; one seen in some frames names them.
#[verifier::spinoff_prover]
pub fn merge_frame_warnings(per_frame: Vec<(String, Vec<LintWarning>)>, out: &mut Vec<LintWarning>)
    ensures
        final(out)@.len() == old(out)@.len() + dedup_keys(all_frame_keys(per_frame@)).len(),
        final(out)@.subrange(0, old(out)@.len() as int) == old(out)@,
        forall|j: int| 0 <= j < dedup_keys(all_frame_keys(per_frame@)).len() ==> merged_warning(
            #[trigger] final(out)@[old(out)@.len() + j],
            per_frame@,
            dedup_keys(all_frame_keys(per_frame@))[j],
        ),
{
    let ghost pf = per_frame@;
    let frame_count = per_frame.len();
    let mut order: Vec<(LintCategory, String)> = Vec::new();
    let mut frames_by: Vec<Vec<String>> = Vec::new();
    let mut f: usize = 0;
    while f < per_frame.len()
        invariant
            f <= pf.len(),
            pf == per_frame@,
            frame_count == pf.len(),
            order@.len() == dedup_keys(all_frame_keys(pf.subrange(0, f as int))).len(),
            frames_by@.len() == order@.len(),
            forall|g: int| 0 <= g < order@.len() ==> (#[trigger] order@[g].0, order@[g].1@) == dedup_keys(all_frame_keys(pf.subrange(0, f as int)))[g],
            forall|g: int| 0 <= g < order@.len() ==> views(#[trigger] frames_by@[g]@) == frames_with(pf.subrange(0, f as int), (order@[g].0, order@[g].1@)),
        decreases pf.len() - f,
    {
        let ghost pre = pf.subrange(0, f as int);
        let ghost pre2 = pf.subrange(0, f + 1);
        assert(pre2.drop_last() =~= pre);
        assert(pre2.last() == pf[f as int]);
        let frame_name = &per_frame[f].0;
        let ws = &per_frame[f].1;
        let ghost fk = frame_keys(ws@);
        let mut seen: Vec<(LintCategory, String)> = Vec::new();
        let mut w: usize = 0;
        while w < ws.len()
            invariant
                w <= ws@.len(),
                fk == frame_keys(ws@),
                forall|q: int| 0 <= q < seen@.len() ==> fk.subrange(0, w as int).contains((#[trigger] seen@[q].0, seen@[q].1@)),
                forall|k: (LintCategory, Seq<char>)| fk.subrange(0, w as int).contains(k) ==> exists|q: int| 0 <= q < seen@.len() && (#[trigger] seen@[q].0, seen@[q].1@) == k,
                order@.len() == dedup_keys(all_frame_keys(pre) + fk.subrange(0, w as int)).len(),
                frames_by@.len() == order@.len(),
                forall|g: int| 0 <= g < order@.len() ==> (#[trigger] order@[g].0, order@[g].1@) == dedup_keys(all_frame_keys(pre) + fk.subrange(0, w as int))[g],
                forall|g: int| 0 <= g < order@.len() ==> views(#[trigger] frames_by@[g]@) == frames_with(pre, (order@[g].0, order@[g].1@)) + if fk.subrange(0, w as int).contains((order@[g].0, order@[g].1@)) {
                    seq![frame_name@]
                } else {
                    Seq::empty()
                },
            decreases ws@.len() - w,
        {
            let ghost key = warning_key(ws@[w as int]);
            let ghost fsub = fk.subrange(0, w as int);
            let ghost fsub2 = fk.subrange(0, w + 1);
            assert(fsub2 =~= fsub.push(key));
            let ghost before_all = all_frame_keys(pre) + fsub;
            assert((all_frame_keys(pre) + fsub2).drop_last() =~= before_all);
            assert((all_frame_keys(pre) + fsub2).last() == key);
            proof {
                lemma_dedup_keys_distinct(before_all);
            }
            let cat = ws[w].category;
            let msg = &ws[w].message;
            // Already counted in this frame?
            let mut dup = false;
            let mut q: usize = 0;
            while q < seen.len()
                invariant
                    q <= seen@.len(),
                    dup == exists|z: int| 0 <= z < q && (#[trigger] seen@[z].0, seen@[z].1@) == (cat, msg@),
                decreases seen@.len() - q,
            {
                if !dup && same_key_pair(&seen[q], cat, msg) {
                    dup = true;
                }
                q = q + 1;
            }
            assert(key == (cat, msg@));
            let ghost old_seen = seen@;
            if dup {
                assert(fsub.contains(key));
                assert(fsub2.contains(key) == fsub.contains(key)) by {
                    assert(fsub2[w as int] == key);
                }
                proof {
                    lemma_dedup_keys_contains(before_all, key);
                    assert(before_all.contains(key)) by {
                        let z = choose|z: int| 0 <= z < fsub.len() && fsub[z] == key;
                        assert(before_all[all_frame_keys(pre).len() + z] == key);
                    }
                }
                assert(dedup_keys(all_frame_keys(pre) + fsub2) == dedup_keys(before_all));
                assert forall|g: int| 0 <= g < order@.len() implies views(#[trigger] frames_by@[g]@) == frames_with(pre, (order@[g].0, order@[g].1@)) + if fsub2.contains((order@[g].0, order@[g].1@)) {
                    seq![frame_name@]
                } else {
                    Seq::empty()
                } by {
                    let kk = (order@[g].0, order@[g].1@);
                    if fsub2.contains(kk) && !fsub.contains(kk) {
                        let z = choose|z: int| 0 <= z < fsub2.len() && fsub2[z] == kk;
                        if z < w {
                            assert(fsub[z] == kk);
                        }
                    }
                    if fsub.contains(kk) {
                        let z = choose|z: int| 0 <= z < fsub.len() && fsub[z] == kk;
                        assert(fsub2[z] == kk);
                    }
                }
            } else {
                assert(!fsub.contains(key)) by {
                    if fsub.contains(key) {
                        let z = choose|z: int| 0 <= z < seen@.len() && (#[trigger] seen@[z].0, seen@[z].1@) == key;
                    }
                }
                seen.push((cat, msg.clone()));
                // Find the defect's slot, or open one.
                let mut found: Option<usize> = None;
                let mut g: usize = 0;
                while g < order.len()
                    invariant
                        g <= order@.len(),
                        forall|z: int| 0 <= z < order@.len() ==> (#[trigger] order@[z].0, order@[z].1@) == dedup_keys(before_all)[z],
                        order@.len() == dedup_keys(before_all).len(),
                        match found {
                            Some(x) => x < order@.len() && dedup_keys(before_all)[x as int] == key,
                            None => forall|z: int| 0 <= z < g ==> #[trigger] dedup_keys(before_all)[z] != key,
                        },
                        key == (cat, msg@),
                    decreases order@.len() - g,
                {
                    if found.is_none() && same_key_pair(&order[g], cat, msg) {
                        found = Some(g);
                    }
                    g = g + 1;
                }
                let ghost old_order = order@;
                let ghost old_frames = frames_by@;
                match found {
                    Some(x) => {
                        assert(dedup_keys(before_all).contains(key));
                        assert(dedup_keys(all_frame_keys(pre) + fsub2) == dedup_keys(before_all));
                        let mut list: Vec<String> = Vec::new();
                        std::mem::swap(&mut list, &mut frames_by[x]);
                        list.push(frame_name.clone());
                        frames_by.set(x, list);
                        assert forall|g2: int| 0 <= g2 < order@.len() implies views(#[trigger] frames_by@[g2]@) == frames_with(pre, (order@[g2].0, order@[g2].1@)) + if fsub2.contains((order@[g2].0, order@[g2].1@)) {
                            seq![frame_name@]
                        } else {
                            Seq::empty()
                        } by {
                            let kk = (order@[g2].0, order@[g2].1@);
                            assert(fsub2.contains(kk) <==> fsub.contains(kk) || kk == key) by {
                                if fsub2.contains(kk) {
                                    let z = choose|z: int| 0 <= z < fsub2.len() && fsub2[z] == kk;
                                    if z < w {
                                        assert(fsub[z] == kk);
                                    }
                                }
                                if fsub.contains(kk) {
                                    let z = choose|z: int| 0 <= z < fsub.len() && fsub[z] == kk;
                                    assert(fsub2[z] == kk);
                                }
                                if kk == key {
                                    assert(fsub2[w as int] == kk);
                                }
                            }
                            if g2 == x {
                                assert(views(frames_by@[g2]@) =~= views(old_frames[g2]@).push(frame_name@));
                            } else {
                                assert(frames_by@[g2] == old_frames[g2]);
                                assert(dedup_keys(before_all)[g2] != dedup_keys(before_all)[x as int]);
                            }
                        }
                    },
                    None => {
                        assert(!dedup_keys(before_all).contains(key)) by {
                            if dedup_keys(before_all).contains(key) {
                                let z = choose|z: int| 0 <= z < dedup_keys(before_all).len() && dedup_keys(before_all)[z] == key;
                                assert(dedup_keys(before_all)[z] != key);
                            }
                        }
                        proof {
                            lemma_dedup_keys_contains(before_all, key);
                        }
                        assert(dedup_keys(all_frame_keys(pre) + fsub2) == dedup_keys(before_all).push(key));
                        order.push((cat, msg.clone()));
                        let mut list: Vec<String> = Vec::new();
                        list.push(frame_name.clone());
                        frames_by.push(list);
                        assert forall|g2: int| 0 <= g2 < order@.len() implies views(#[trigger] frames_by@[g2]@) == frames_with(pre, (order@[g2].0, order@[g2].1@)) + if fsub2.contains((order@[g2].0, order@[g2].1@)) {
                            seq![frame_name@]
                        } else {
                            Seq::empty()
                        } by {
                            let kk = (order@[g2].0, order@[g2].1@);
                            assert(fsub2.contains(kk) <==> fsub.contains(kk) || kk == key) by {
                                if fsub2.contains(kk) {
                                    let z = choose|z: int| 0 <= z < fsub2.len() && fsub2[z] == kk;
                                    if z < w {
                                        assert(fsub[z] == kk);
                                    }
                                }
                                if fsub.contains(kk) {
                                    let z = choose|z: int| 0 <= z < fsub.len() && fsub[z] == kk;
                                    assert(fsub2[z] == kk);
                                }
                                if kk == key {
                                    assert(fsub2[w as int] == kk);
                                }
                            }
                            if g2 < old_order.len() {
                                assert(frames_by@[g2] == old_frames[g2]);
                                assert(dedup_keys(before_all).contains(kk)) by {
                                    assert(dedup_keys(before_all)[g2] == kk);
                                }
                            } else {
                                assert(kk == key);
                                assert(!before_all.contains(key));
                                assert(!fsub.contains(key));
                                assert(!all_frame_keys(pre).contains(key)) by {
                                    if all_frame_keys(pre).contains(key) {
                                        let z = choose|z: int| 0 <= z < all_frame_keys(pre).len() && all_frame_keys(pre)[z] == key;
                                        assert(before_all[z] == key);
                                    }
                                }
                                lemma_frames_with_absent(pre, key);
                                assert(views(frames_by@[g2]@) =~= seq![frame_name@]);
                            }
                        }
                    },
                }
            }
            assert forall|k: (LintCategory, Seq<char>)| fsub2.contains(k) implies exists|q2: int| 0 <= q2 < seen@.len() && (#[trigger] seen@[q2].0, seen@[q2].1@) == k by {
                let z = choose|z: int| 0 <= z < fsub2.len() && fsub2[z] == k;
                if z < w {
                    assert(fsub[z] == k);
                    assert(fsub.contains(k));
                    let q2 = choose|q2: int| 0 <= q2 < old_seen.len() && (#[trigger] old_seen[q2].0, old_seen[q2].1@) == k;
                    assert(seen@[q2] == old_seen[q2]);
                } else {
                    assert(k == key);
                    if dup {
                        let q2 = choose|q2: int| 0 <= q2 < old_seen.len() && (#[trigger] old_seen[q2].0, old_seen[q2].1@) == (cat, msg@);
                        assert(seen@[q2] == old_seen[q2]);
                    } else {
                        assert(seen@[seen@.len() - 1].0 == cat);
                        assert((seen@[seen@.len() - 1].0, seen@[seen@.len() - 1].1@) == k);
                    }
                }
            }
            assert forall|q2: int| 0 <= q2 < seen@.len() implies fsub2.contains((#[trigger] seen@[q2].0, seen@[q2].1@)) by {
                if q2 < old_seen.len() {
                    assert(seen@[q2] == old_seen[q2]);
                    let kk = (seen@[q2].0, seen@[q2].1@);
                    assert(fsub.contains(kk));
                    let z = choose|z: int| 0 <= z < fsub.len() && fsub[z] == kk;
                    assert(fsub2[z] == kk);
                } else {
                    assert(fsub2[w as int] == key);
                }
            }
            w = w + 1;
        }
        assert(fk.subrange(0, w as int) =~= fk);
        assert(all_frame_keys(pre2) =~= all_frame_keys(pre) + fk);
        assert forall|g: int| 0 <= g < order@.len() implies views(#[trigger] frames_by@[g]@) == frames_with(pre2, (order@[g].0, order@[g].1@)) by {
            assert(pre2.last().1@ == ws@);
        }
        f = f + 1;
    }
    assert(pf.subrange(0, f as int) =~= pf);
    let ghost ks = dedup_keys(all_frame_keys(pf));
    let mut g: usize = 0;
    while g < order.len()
        invariant
            g <= order@.len(),
            order@.len() == ks.len(),
            frames_by@.len() == order@.len(),
            frame_count == pf.len(),
            forall|z: int| 0 <= z < order@.len() ==> (#[trigger] order@[z].0, order@[z].1@) == ks[z],
            forall|z: int| 0 <= z < order@.len() ==> views(#[trigger] frames_by@[z]@) == frames_with(pf, ks[z]),
            out@.len() == old(out)@.len() + g,
            out@.subrange(0, old(out)@.len() as int) == old(out)@,
            forall|j: int| 0 <= j < g ==> merged_warning(#[trigger] out@[old(out)@.len() + j], pf, ks[j]),
        decreases order@.len() - g,
    {
        let n = frames_by[g].len();
        let frames: Vec<String> = if n == frame_count {
            Vec::new()
        } else {
            let mut copy: Vec<String> = Vec::new();
            let mut z: usize = 0;
            while z < n
                invariant
                    z <= n,
                    n == frames_by@[g as int]@.len(),
                    g < frames_by@.len(),
                    views(copy@) == views(frames_by@[g as int]@).subrange(0, z as int),
                decreases n - z,
            {
                let ghost before = copy@;
                copy.push(frames_by[g][z].clone());
                z = z + 1;
                assert(views(copy@) =~= views(frames_by@[g as int]@).subrange(0, z as int)) by {
                    assert(views(copy@) =~= views(before).push(frames_by@[g as int]@[z - 1]@));
                }
            }
            assert(views(frames_by@[g as int]@).subrange(0, z as int) =~= views(frames_by@[g as int]@));
            copy
        };
        assert(views(frames@) =~= if frames_with(pf, ks[g as int]).len() == pf.len() {
            Seq::<Seq<char>>::empty()
        } else {
            frames_with(pf, ks[g as int])
        });
        let w = LintWarning { category: order[g].0, message: order[g].1.clone(), frames, pair: None };
        let ghost before = out@;
        out.push(w);
        assert(out@.subrange(0, old(out)@.len() as int) =~= before.subrange(0, old(out)@.len() as int));
        assert forall|j: int| 0 <= j < g + 1 implies merged_warning(#[trigger] out@[old(out)@.len() + j], pf, ks[j]) by {
            if j < g {
                assert(out@[old(out)@.len() + j] == before[old(out)@.len() + j]);
            }
        }
        g = g + 1;
    }
}

proof fn lemma_frames_with_absent(pf: Seq<(String, Vec<LintWarning>)>, k: (LintCategory, Seq<char>))
    requires
        !all_frame_keys(pf).contains(k),
    ensures
        frames_with(pf, k) == Seq::<Seq<char>>::empty(),
    decreases pf.len(),
{
    if pf.len() > 0 {
        let a = all_frame_keys(pf.drop_last());
        let b = frame_keys(pf.last().1@);
        assert(!a.contains(k)) by {
            if a.contains(k) {
                let z = choose|z: int| 0 <= z < a.len() && a[z] == k;
                assert((a + b)[z] == k);
            }
        }
        assert(!b.contains(k)) by {
            if b.contains(k) {
                let z = choose|z: int| 0 <= z < b.len() && b[z] == k;
                assert((a + b)[a.len() + z] == k);
            }
        }
        lemma_frames_with_absent(pf.drop_last(), k);
        assert(frames_with(pf, k) =~= Seq::<Seq<char>>::empty());
    }
}

// ---------------------------------------------------------------------------
// Colour words that name nothing
// ---------------------------------------------------------------------------

/// Every CSS named colour, plus the keywords a colour property also accepts.
pub open spec fn css_color_names() -> Seq<Seq<char>> {
    seq![
        "aliceblue"@,
        "antiquewhite"@,
        "aqua"@,
        "aquamarine"@,
        "azure"@,
        "beige"@,
        "bisque"@,
        "black"@,
        "blanchedalmond"@,
        "blue"@,
        "blueviolet"@,
        "brown"@,
        "burlywood"@,
        "cadetblue"@,
        "chartreuse"@,
        "chocolate"@,
        "coral"@,
        "cornflowerblue"@,
        "cornsilk"@,
        "crimson"@,
        "cyan"@,
        "darkblue"@,
        "darkcyan"@,
        "darkgoldenrod"@,
        "darkgray"@,
        "darkgreen"@,
        "darkgrey"@,
        "darkkhaki"@,
        "darkmagenta"@,
        "darkolivegreen"@,
        "darkorange"@,
        "darkorchid"@,
        "darkred"@,
        "darksalmon"@,
        "darkseagreen"@,
        "darkslateblue"@,
        "darkslategray"@,
        "darkslategrey"@,
        "darkturquoise"@,
        "darkviolet"@,
        "deeppink"@,
        "deepskyblue"@,
        "dimgray"@,
        "dimgrey"@,
        "dodgerblue"@,
        "firebrick"@,
        "floralwhite"@,
        "forestgreen"@,
        "fuchsia"@,
        "gainsboro"@,
        "ghostwhite"@,
        "gold"@,
        "goldenrod"@,
        "gray"@,
        "green"@,
        "greenyellow"@,
        "grey"@,
        "honeydew"@,
        "hotpink"@,
        "indianred"@,
        "indigo"@,
        "ivory"@,
        "khaki"@,
        "lavender"@,
        "lavenderblush"@,
        "lawngreen"@,
        "lemonchiffon"@,
        "lightblue"@,
        "lightcoral"@,
        "lightcyan"@,
        "lightgoldenrodyellow"@,
        "lightgray"@,
        "lightgreen"@,
        "lightgrey"@,
        "lightpink"@,
        "lightsalmon"@,
        "lightseagreen"@,
        "lightskyblue"@,
        "lightslategray"@,
        "lightslategrey"@,
        "lightsteelblue"@,
        "lightyellow"@,
        "lime"@,
        "limegreen"@,
        "linen"@,
        "magenta"@,
        "maroon"@,
        "mediumaquamarine"@,
        "mediumblue"@,
        "mediumorchid"@,
        "mediumpurple"@,
        "mediumseagreen"@,
        "mediumslateblue"@,
        "mediumspringgreen"@,
        "mediumturquoise"@,
        "mediumvioletred"@,
        "midnightblue"@,
        "mintcream"@,
        "mistyrose"@,
        "moccasin"@,
        "navajowhite"@,
        "navy"@,
        "oldlace"@,
        "olive"@,
        "olivedrab"@,
        "orange"@,
        "orangered"@,
        "orchid"@,
        "palegoldenrod"@,
        "palegreen"@,
        "paleturquoise"@,
        "palevioletred"@,
        "papayawhip"@,
        "peachpuff"@,
        "peru"@,
        "pink"@,
        "plum"@,
        "powderblue"@,
        "purple"@,
        "rebeccapurple"@,
        "red"@,
        "rosybrown"@,
        "royalblue"@,
        "saddlebrown"@,
        "salmon"@,
        "sandybrown"@,
        "seagreen"@,
        "seashell"@,
        "sienna"@,
        "silver"@,
        "skyblue"@,
        "slateblue"@,
        "slategray"@,
        "slategrey"@,
        "snow"@,
        "springgreen"@,
        "steelblue"@,
        "tan"@,
        "teal"@,
        "thistle"@,
        "tomato"@,
        "turquoise"@,
        "violet"@,
        "wheat"@,
        "white"@,
        "whitesmoke"@,
        "yellow"@,
        "yellowgreen"@,
        "none"@,
        "transparent"@,
        "currentcolor"@,
        "inherit"@,
    ]
}

/// Pattern shorthands a fill accepts in place of a colour.
pub open spec fn fill_pattern_names() -> Seq<Seq<char>> {
    seq!["hatch"@, "dots"@, "grid"@, "gradient"@, "radial"@]
}

fn is_css_color_name(word: &[char]) -> (r: bool)
    ensures
        r == css_color_names().contains(word@),
{
    let names: [&str; 152] = [
        "aliceblue",
        "antiquewhite",
        "aqua",
        "aquamarine",
        "azure",
        "beige",
        "bisque",
        "black",
        "blanchedalmond",
        "blue",
        "blueviolet",
        "brown",
        "burlywood",
        "cadetblue",
        "chartreuse",
        "chocolate",
        "coral",
        "cornflowerblue",
        "cornsilk",
        "crimson",
        "cyan",
        "darkblue",
        "darkcyan",
        "darkgoldenrod",
        "darkgray",
        "darkgreen",
        "darkgrey",
        "darkkhaki",
        "darkmagenta",
        "darkolivegreen",
        "darkorange",
        "darkorchid",
        "darkred",
        "darksalmon",
        "darkseagreen",
        "darkslateblue",
        "darkslategray",
        "darkslategrey",
        "darkturquoise",
        "darkviolet",
        "deeppink",
        "deepskyblue",
        "dimgray",
        "dimgrey",
        "dodgerblue",
        "firebrick",
        "floralwhite",
        "forestgreen",
        "fuchsia",
        "gainsboro",
        "ghostwhite",
        "gold",
        "goldenrod",
        "gray",
        "green",
        "greenyellow",
        "grey",
        "honeydew",
        "hotpink",
        "indianred",
        "indigo",
        "ivory",
        "khaki",
        "lavender",
        "lavenderblush",
        "lawngreen",
        "lemonchiffon",
        "lightblue",
        "lightcoral",
        "lightcyan",
        "lightgoldenrodyellow",
        "lightgray",
        "lightgreen",
        "lightgrey",
        "lightpink",
        "lightsalmon",
        "lightseagreen",
        "lightskyblue",
        "lightslategray",
        "lightslategrey",
        "lightsteelblue",
        "lightyellow",
        "lime",
        "limegreen",
        "linen",
        "magenta",
        "maroon",
        "mediumaquamarine",
        "mediumblue",
        "mediumorchid",
        "mediumpurple",
        "mediumseagreen",
        "mediumslateblue",
        "mediumspringgreen",
        "mediumturquoise",
        "mediumvioletred",
        "midnightblue",
        "mintcream",
        "mistyrose",
        "moccasin",
        "navajowhite",
        "navy",
        "oldlace",
        "olive",
        "olivedrab",
        "orange",
        "orangered",
        "orchid",
        "palegoldenrod",
        "palegreen",
        "paleturquoise",
        "palevioletred",
        "papayawhip",
        "peachpuff",
        "peru",
        "pink",
        "plum",
        "powderblue",
        "purple",
        "rebeccapurple",
        "red",
        "rosybrown",
        "royalblue",
        "saddlebrown",
        "salmon",
        "sandybrown",
        "seagreen",
        "seashell",
        "sienna",
        "silver",
        "skyblue",
        "slateblue",
        "slategray",
        "slategrey",
        "snow",
        "springgreen",
        "steelblue",
        "tan",
        "teal",
        "thistle",
        "tomato",
        "turquoise",
        "violet",
        "wheat",
        "white",
        "whitesmoke",
        "yellow",
        "yellowgreen",
        "none",
        "transparent",
        "currentcolor",
        "inherit",
    ];
    let mut k: usize = 0;
    while k < 152
        invariant
            k <= 152,
            names@ == seq!["aliceblue", "antiquewhite", "aqua", "aquamarine", "azure", "beige", "bisque", "black", "blanchedalmond", "blue", "blueviolet", "brown", "burlywood", "cadetblue", "chartreuse", "chocolate", "coral", "cornflowerblue", "cornsilk", "crimson", "cyan", "darkblue", "darkcyan", "darkgoldenrod", "darkgray", "darkgreen", "darkgrey", "darkkhaki", "darkmagenta", "darkolivegreen", "darkorange", "darkorchid", "darkred", "darksalmon", "darkseagreen", "darkslateblue", "darkslategray", "darkslategrey", "darkturquoise", "darkviolet", "deeppink", "deepskyblue", "dimgray", "dimgrey", "dodgerblue", "firebrick", "floralwhite", "forestgreen", "fuchsia", "gainsboro", "ghostwhite", "gold", "goldenrod", "gray", "green", "greenyellow", "grey", "honeydew", "hotpink", "indianred", "indigo", "ivory", "khaki", "lavender", "lavenderblush", "lawngreen", "lemonchiffon", "lightblue", "lightcoral", "lightcyan", "lightgoldenrodyellow", "lightgray", "lightgreen", "lightgrey", "lightpink", "lightsalmon", "lightseagreen", "lightskyblue", "lightslategray", "lightslategrey", "lightsteelblue", "lightyellow", "lime", "limegreen", "linen", "magenta", "maroon", "mediumaquamarine", "mediumblue", "mediumorchid", "mediumpurple", "mediumseagreen", "mediumslateblue", "mediumspringgreen", "mediumturquoise", "mediumvioletred", "midnightblue", "mintcream", "mistyrose", "moccasin", "navajowhite", "navy", "oldlace", "olive", "olivedrab", "orange", "orangered", "orchid", "palegoldenrod", "palegreen", "paleturquoise", "palevioletred", "papayawhip", "peachpuff", "peru", "pink", "plum", "powderblue", "purple", "rebeccapurple", "red", "rosybrown", "royalblue", "saddlebrown", "salmon", "sandybrown", "seagreen", "seashell", "sienna", "silver", "skyblue", "slateblue", "slategray", "slategrey", "snow", "springgreen", "steelblue", "tan", "teal", "thistle", "tomato", "turquoise", "violet", "wheat", "white", "whitesmoke", "yellow", "yellowgreen", "none", "transparent", "currentcolor", "inherit"],
            forall|j: int| 0 <= j < k ==> #[trigger] css_color_names()[j] != word@,
        decreases 152 - k,
    {
        let n = chars_of(names[k]);
        if chars_eq(&n, word) {
            assert(css_color_names()[k as int] == word@);
            return true;
        }
        k = k + 1;
    }
    false
}

fn is_fill_pattern_name(word: &[char]) -> (r: bool)
    ensures
        r == fill_pattern_names().contains(word@),
{
    let names: [&str; 5] = ["hatch", "dots", "grid", "gradient", "radial"];
    let mut k: usize = 0;
    while k < 5
        invariant
            k <= 5,
            names@ == seq!["hatch", "dots", "grid", "gradient", "radial"],
            forall|j: int| 0 <= j < k ==> #[trigger] fill_pattern_names()[j] != word@,
        decreases 5 - k,
    {
        let n = chars_of(names[k]);
        if chars_eq(&n, word) {
            assert(fill_pattern_names()[k as int] == word@);
            return true;
        }
        k = k + 1;
    }
    false
}

/// The name of a colour-valued key.
pub open spec fn color_key_name(k: StyleKey) -> Option<Seq<char>> {
    match k {
        StyleKey::Fill => Some("fill"@),
        StyleKey::Stroke => Some("stroke"@),
        StyleKey::LabelFill => Some("label_fill"@),
        _ => None,
    }
}

/// The bare word of a value, if it is one.
pub open spec fn color_word(v: StyleValue) -> Option<Seq<char>> {
    match v {
        StyleValue::Identifier(id) => Some(id.0@),
        StyleValue::Keyword(k) => Some(k@),
        _ => None,
    }
}

/// A word that names a colour or a fill pattern, in any ASCII case.
pub open spec fn known_color_word(w: Seq<char>) -> bool {
    css_color_names().contains(lower_seq(w)) || fill_pattern_names().contains(lower_seq(w))
}

/// The message for a colour word that names nothing.
pub open spec fn color_message(key: Seq<char>, word: Seq<char>, owner: Seq<char>) -> Seq<char> {
    key + ": \""@ + word + "\" on "@ + owner
        + " is not a palette token or a CSS colour name; it reaches the SVG as-is and will not render as intended"@
}

/// Messages for the unknown colour words among `mods`, in order.
pub open spec fn color_msgs(mods: Seq<Spanned<StyleModifier>>, owner: Seq<char>) -> Seq<Seq<char>>
    decreases mods.len(),
{
    if mods.len() == 0 {
        Seq::empty()
    } else {
        let m = mods.last().node;
        color_msgs(mods.drop_last(), owner) + match (color_key_name(m.key.node), color_word(m.value.node)) {
            (Some(k), Some(w)) => if known_color_word(w) {
                Seq::empty()
            } else {
                seq![color_message(k, w, owner)]
            },
            _ => Seq::empty(),
        }
    }
}

/// Unknown-colour messages of the transforms of a keyframe.
pub open spec fn ops_color_msgs(ops: Seq<Spanned<KeyframeOp>>, kf: KeyframeDecl) -> Seq<Seq<char>>
    decreases ops.len(),
{
    if ops.len() == 0 {
        Seq::empty()
    } else {
        ops_color_msgs(ops.drop_last(), kf) + match ops.last().node {
            KeyframeOp::Transform { target, modifiers } => color_msgs(modifiers@, transform_owner(target, kf)),
            _ => Seq::empty(),
        }
    }
}

/// Unknown-colour messages of a statement: shapes, and keyframe transforms;
/// layouts and groups are searched for shapes.
pub open spec fn stmt_color_msgs(s: Statement) -> Seq<Seq<char>>
    decreases s,
{
    match s {
        Statement::Shape(sh) => color_msgs(sh.modifiers@, owner_text(sh.name, "an unnamed element"@)),
        Statement::Layout(l) => stmts_color_msgs(l.children@),
        Statement::Group(g) => stmts_color_msgs(g.children@),
        Statement::Keyframe(kf) => ops_color_msgs(kf.operations@, kf),
        _ => Seq::empty(),
    }
}

/// Unknown-colour messages of a list of statements.
pub open spec fn stmts_color_msgs(ss: Seq<Spanned<Statement>>) -> Seq<Seq<char>>
    decreases ss,
{
    if ss.len() == 0 {
        Seq::empty()
    } else {
        stmts_color_msgs(ss.subrange(0, ss.len() - 1)) + stmt_color_msgs(ss[ss.len() - 1].node)
    }
}

fn check_colors_in(mods: &Vec<Spanned<StyleModifier>>, owner: &String, warnings: &mut Vec<LintWarning>)
    ensures
        appended(old(warnings)@, final(warnings)@, LintCategory::UnknownModifier, color_msgs(mods@, owner@)),
{
    proof {
        lemma_appended_nothing(old(warnings)@, LintCategory::UnknownModifier);
    }
    let mut i: usize = 0;
    while i < mods.len()
        invariant
            i <= mods@.len(),
            appended(old(warnings)@, warnings@, LintCategory::UnknownModifier, color_msgs(mods@.subrange(0, i as int), owner@)),
        decreases mods@.len() - i,
    {
        let ghost sub = mods@.subrange(0, i + 1);
        assert(sub.drop_last() =~= mods@.subrange(0, i as int));
        assert(sub.last() == mods@[i as int]);
        let ghost prev = color_msgs(mods@.subrange(0, i as int), owner@);
        let key: Option<&str> = match &mods[i].node.key.node {
            StyleKey::Fill => Some("fill"),
            StyleKey::Stroke => Some("stroke"),
            StyleKey::LabelFill => Some("label_fill"),
            _ => None,
        };
        let word: Option<&String> = match &mods[i].node.value.node {
            StyleValue::Identifier(id) => Some(&id.0),
            StyleValue::Keyword(k) => Some(k),
            _ => None,
        };
        match (key, word) {
            (Some(k), Some(wd)) => {
                let wc = chars_of(wd.as_str());
                let lower = chars_to_lower(&wc);
                if is_css_color_name(&lower) || is_fill_pattern_name(&lower) {
                    assert(prev =~= color_msgs(sub, owner@));
                } else {
                    let mut msg = String::new();
                    msg.append(k);
                    msg.append(": \"");
                    msg.append(wd.as_str());
                    msg.append("\" on ");
                    msg.append(owner.as_str());
                    msg.append(" is not a palette token or a CSS colour name; it reaches the SVG as-is and will not render as intended");
                    let w = LintWarning { category: LintCategory::UnknownModifier, message: msg, frames: Vec::new(), pair: None };
                    let ghost before = warnings@;
                    let ghost wv = w;
                    warnings.push(w);
                    proof {
                        lemma_appended_push(old(warnings)@, before, LintCategory::UnknownModifier, prev, wv, wv.message@);
                        assert(prev.push(wv.message@) =~= color_msgs(sub, owner@));
                    }
                }
            },
            _ => {
                assert(prev =~= color_msgs(sub, owner@));
            },
        }
        i = i + 1;
    }
    assert(mods@.subrange(0, i as int) =~= mods@);
}

fn check_colors_in_ops(kf: &KeyframeDecl, warnings: &mut Vec<LintWarning>)
    ensures
        appended(old(warnings)@, final(warnings)@, LintCategory::UnknownModifier, ops_color_msgs(kf.operations@, *kf)),
{
    proof {
        lemma_appended_nothing(old(warnings)@, LintCategory::UnknownModifier);
    }
    let mut i: usize = 0;
    while i < kf.operations.len()
        invariant
            i <= kf.operations@.len(),
            appended(old(warnings)@, warnings@, LintCategory::UnknownModifier, ops_color_msgs(kf.operations@.subrange(0, i as int), *kf)),
        decreases kf.operations@.len() - i,
    {
        let ghost sub = kf.operations@.subrange(0, i + 1);
        assert(sub.drop_last() =~= kf.operations@.subrange(0, i as int));
        assert(sub.last() == kf.operations@[i as int]);
        let ghost mid = warnings@;
        match &kf.operations[i].node {
            KeyframeOp::Transform { target, modifiers } => {
                let owner = transform_owner_string(target, kf);
                check_colors_in(modifiers, &owner, warnings);
                proof {
                    lemma_appended_concat(old(warnings)@, mid, warnings@, LintCategory::UnknownModifier,
                        ops_color_msgs(kf.operations@.subrange(0, i as int), *kf), color_msgs(modifiers@, owner@));
                }
            },
            _ => {
                assert(ops_color_msgs(sub, *kf) =~= ops_color_msgs(kf.operations@.subrange(0, i as int), *kf));
            },
        }
        i = i + 1;
    }
    assert(kf.operations@.subrange(0, i as int) =~= kf.operations@);
}

fn check_colors_statement(stmt: &Statement, warnings: &mut Vec<LintWarning>)
    ensures
        appended(old(warnings)@, final(warnings)@, LintCategory::UnknownModifier, stmt_color_msgs(*stmt)),
    decreases stmt, 1nat,
{
    proof {
        lemma_appended_nothing(old(warnings)@, LintCategory::UnknownModifier);
    }
    match stmt {
        Statement::Shape(sh) => {
            let owner = owner_string(&sh.name);
            check_colors_in(&sh.modifiers, &owner, warnings);
        },
        Statement::Layout(l) => {
            check_colors_in_stmts(&l.children, warnings);
        },
        Statement::Group(g) => {
            check_colors_in_stmts(&g.children, warnings);
        },
        Statement::Keyframe(kf) => {
            check_colors_in_ops(kf, warnings);
        },
        _ => {},
    }
}

fn check_colors_in_stmts(stmts: &Vec<Spanned<Statement>>, warnings: &mut Vec<LintWarning>)
    ensures
        appended(old(warnings)@, final(warnings)@, LintCategory::UnknownModifier, stmts_color_msgs(stmts@)),
    decreases stmts, 0nat,
{
    proof {
        lemma_appended_nothing(old(warnings)@, LintCategory::UnknownModifier);
    }
    let mut i: usize = 0;
    while i < stmts.len()
        invariant
            i <= stmts@.len(),
            appended(old(warnings)@, warnings@, LintCategory::UnknownModifier, stmts_color_msgs(stmts@.subrange(0, i as int))),
        decreases stmts@.len() - i,
    {
        let ghost sub = stmts@.subrange(0, i + 1);
        assert(sub.subrange(0, sub.len() - 1) =~= stmts@.subrange(0, i as int));
        assert(sub[sub.len() - 1] == stmts@[i as int]);
        assert(decreases_to!(stmts => stmts@[i as int].node));
        let ghost mid = warnings@;
        check_colors_statement(&stmts[i].node, warnings);
        proof {
            lemma_appended_concat(old(warnings)@, mid, warnings@, LintCategory::UnknownModifier,
                stmts_color_msgs(stmts@.subrange(0, i as int)), stmt_color_msgs(stmts@[i as int].node));
        }
        i = i + 1;
    }
    assert(stmts@.subrange(0, i as int) =~= stmts@);
}

/// Warn about `fill`, `stroke` and `label_fill` words that are neither a CSS
/// colour name nor a fill pattern: they reach the SVG as-is.
pub fn check_unknown_colors(doc: &Document, warnings: &mut Vec<LintWarning>)
    ensures
        appended(old(warnings)@, final(warnings)@, LintCategory::UnknownModifier, stmts_color_msgs(doc.statements@)),
{
    check_colors_in_stmts(&doc.statements, warnings);
}

} // verus!
