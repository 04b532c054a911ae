//! Connection routing options read from the document.

use vstd::prelude::*;
use crate::ast::{Identifier, Spanned, StyleKey, StyleModifier, StyleValue};
use crate::strings::{str_eq, views};
use crate::num::Num;

verus! {

/// Routing mode for connections.
#[derive(Debug, Clone, Copy, PartialEq, Eq, Structural)]
pub enum RoutingMode {
    /// Direct straight line from source to target.
    Direct,
    /// Orthogonal routing with horizontal/vertical segments (the default).
    Orthogonal,
    /// Curved routing using quadratic Bezier segments.
    Curved,
}

impl Default for RoutingMode {
    fn default() -> (r: RoutingMode)
        ensures
            r == RoutingMode::Orthogonal,
    {
        RoutingMode::Orthogonal
    }
}

/// Edge of a bounding box for connection attachment.
#[derive(Debug, Clone, Copy, PartialEq, Eq, Structural)]
pub enum Edge {
    Top,
    Bottom,
    Left,
    Right,
}

/// Label position for connection labels.
#[derive(Debug, Clone, Copy, PartialEq, Eq, Structural)]
pub enum LabelPosition {
    Left,
    Right,
    Center,
}

/// The routing mode a connection's modifiers ask for: the first `routing:`
/// keyword that names a mode; unknown keywords are passed over. Orthogonal
/// when none does.
pub open spec fn routing_mode_of(mods: Seq<Spanned<StyleModifier>>) -> RoutingMode
    decreases mods.len(),
{
    if mods.len() == 0 {
        RoutingMode::Orthogonal
    } else {
        match (mods[0].node.key.node, mods[0].node.value.node) {
            (StyleKey::Routing, StyleValue::Keyword(k)) => if k@ == "direct"@ {
                RoutingMode::Direct
            } else if k@ == "orthogonal"@ {
                RoutingMode::Orthogonal
            } else if k@ == "curved"@ {
                RoutingMode::Curved
            } else {
                routing_mode_of(mods.drop_first())
            },
            _ => routing_mode_of(mods.drop_first()),
        }
    }
}

/// Extract the routing mode from connection modifiers.
pub fn extract_routing_mode(modifiers: &Vec<Spanned<StyleModifier>>) -> (r: RoutingMode)
    ensures
        r == routing_mode_of(modifiers@),
{
    let mut i: usize = 0;
    assert(modifiers@.subrange(0, modifiers@.len() as int) =~= modifiers@);
    while i < modifiers.len()
        invariant
            i <= modifiers@.len(),
            routing_mode_of(modifiers@) == routing_mode_of(modifiers@.subrange(i as int, modifiers@.len() as int)),
        decreases modifiers@.len() - i,
    {
        let ghost rest = modifiers@.subrange(i as int, modifiers@.len() as int);
        assert(rest[0] == modifiers@[i as int]);
        assert(rest.drop_first() =~= modifiers@.subrange(i + 1, modifiers@.len() as int));
        match (&modifiers[i].node.key.node, &modifiers[i].node.value.node) {
            (StyleKey::Routing, StyleValue::Keyword(k)) => {
                if str_eq(k.as_str(), "direct") {
                    return RoutingMode::Direct;
                } else if str_eq(k.as_str(), "orthogonal") {
                    return RoutingMode::Orthogonal;
                } else if str_eq(k.as_str(), "curved") {
                    return RoutingMode::Curved;
                }
            },
            _ => {},
        }
        i = i + 1;
    }
    RoutingMode::default()
}

/// `m` is a `routing:` modifier whose keyword is `word`.
pub open spec fn routing_word(m: StyleModifier, word: Seq<char>) -> bool {
    m.key.node is Routing && (m.value.node matches StyleValue::Keyword(k) && k@ == word)
}

/// `m` is a `routing:` modifier naming one of the three modes.
pub open spec fn names_routing(m: StyleModifier) -> bool {
    routing_word(m, "direct"@) || routing_word(m, "orthogonal"@) || routing_word(m, "curved"@)
}

/// A routing keyword names its mode: `direct` gives direct routing,
/// `orthogonal` orthogonal and `curved` curved, and the first modifier that
/// names a mode decides, whatever follows it.
pub proof fn lemma_routing_keyword_names_mode(mods: Seq<Spanned<StyleModifier>>, i: int)
    requires
        0 <= i < mods.len(),
        names_routing(mods[i].node),
        forall|j: int| 0 <= j < i ==> !names_routing(#[trigger] mods[j].node),
    ensures
        routing_word(mods[i].node, "direct"@) ==> routing_mode_of(mods) == RoutingMode::Direct,
        routing_word(mods[i].node, "orthogonal"@) ==> routing_mode_of(mods) == RoutingMode::Orthogonal,
        routing_word(mods[i].node, "curved"@) ==> routing_mode_of(mods) == RoutingMode::Curved,
    decreases i,
{
    reveal_strlit("direct");
    reveal_strlit("orthogonal");
    reveal_strlit("curved");
    assert("orthogonal"@ != "direct"@) by {
        assert("orthogonal"@[0] != "direct"@[0]);
    }
    assert("curved"@ != "direct"@) by {
        assert("curved"@[0] != "direct"@[0]);
    }
    assert("curved"@ != "orthogonal"@) by {
        assert("curved"@[0] != "orthogonal"@[0]);
    }
    if i > 0 {
        assert(!names_routing(mods[0].node));
        let rest = mods.drop_first();
        assert forall|j: int| 0 <= j < i - 1 implies !names_routing(#[trigger] rest[j].node) by {
            assert(rest[j] == mods[j + 1]);
        }
        assert(rest[i - 1] == mods[i]);
        lemma_routing_keyword_names_mode(rest, i - 1);
    }
}

/// Modifiers that name no routing mode leave the default, orthogonal routing.
pub proof fn lemma_routing_default(mods: Seq<Spanned<StyleModifier>>)
    requires
        forall|j: int| 0 <= j < mods.len() ==> !names_routing(#[trigger] mods[j].node),
    ensures
        routing_mode_of(mods) == RoutingMode::Orthogonal,
    decreases mods.len(),
{
    if mods.len() > 0 {
        assert(!names_routing(mods[0].node));
        let rest = mods.drop_first();
        assert forall|j: int| 0 <= j < rest.len() implies !names_routing(#[trigger] rest[j].node) by {
            assert(rest[j] == mods[j + 1]);
        }
        lemma_routing_default(rest);
    }
}

/// The label position a connection's modifiers ask for: the first
/// `label_position:` keyword that names one (`left`, `right`, `center`);
/// other values are passed over.
pub open spec fn label_position_of(mods: Seq<Spanned<StyleModifier>>) -> Option<LabelPosition>
    decreases mods.len(),
{
    if mods.len() == 0 {
        None
    } else {
        match (mods[0].node.key.node, mods[0].node.value.node) {
            (StyleKey::LabelPosition, StyleValue::Keyword(k)) => if k@ == "left"@ {
                Some(LabelPosition::Left)
            } else if k@ == "right"@ {
                Some(LabelPosition::Right)
            } else if k@ == "center"@ {
                Some(LabelPosition::Center)
            } else {
                label_position_of(mods.drop_first())
            },
            _ => label_position_of(mods.drop_first()),
        }
    }
}

/// Extract the label position of a connection label.
pub fn extract_label_position(modifiers: &Vec<Spanned<StyleModifier>>) -> (r: Option<LabelPosition>)
    ensures
        r == label_position_of(modifiers@),
{
    let mut i: usize = 0;
    assert(modifiers@.subrange(0, modifiers@.len() as int) =~= modifiers@);
    while i < modifiers.len()
        invariant
            i <= modifiers@.len(),
            label_position_of(modifiers@) == label_position_of(modifiers@.subrange(i as int, modifiers@.len() as int)),
        decreases modifiers@.len() - i,
    {
        let ghost rest = modifiers@.subrange(i as int, modifiers@.len() as int);
        assert(rest[0] == modifiers@[i as int]);
        assert(rest.drop_first() =~= modifiers@.subrange(i + 1, modifiers@.len() as int));
        match (&modifiers[i].node.key.node, &modifiers[i].node.value.node) {
            (StyleKey::LabelPosition, StyleValue::Keyword(k)) => {
                if str_eq(k.as_str(), "left") {
                    return Some(LabelPosition::Left);
                } else if str_eq(k.as_str(), "right") {
                    return Some(LabelPosition::Right);
                } else if str_eq(k.as_str(), "center") {
                    return Some(LabelPosition::Center);
                }
            },
            _ => {},
        }
        i = i + 1;
    }
    None
}

/// `m` is a `label_position:` modifier whose keyword is `word`.
pub open spec fn label_position_word(m: StyleModifier, word: Seq<char>) -> bool {
    m.key.node is LabelPosition && (m.value.node matches StyleValue::Keyword(k) && k@ == word)
}

/// `m` is a `label_position:` modifier naming one of the three positions.
pub open spec fn names_label_position(m: StyleModifier) -> bool {
    label_position_word(m, "left"@) || label_position_word(m, "right"@) || label_position_word(m, "center"@)
}

/// A label-position keyword names its position (`left`, `right`,
/// `center`), and the first modifier that names one decides; with none, no
/// position is asked for.
pub proof fn lemma_label_position_keyword_names_position(mods: Seq<Spanned<StyleModifier>>, i: int)
    requires
        0 <= i <= mods.len(),
        i < mods.len() ==> names_label_position(mods[i].node),
        forall|j: int| 0 <= j < i ==> !names_label_position(#[trigger] mods[j].node),
    ensures
        i == mods.len() ==> label_position_of(mods) is None,
        i < mods.len() && label_position_word(mods[i].node, "left"@) ==> label_position_of(mods) == Some(
            LabelPosition::Left,
        ),
        i < mods.len() && label_position_word(mods[i].node, "right"@) ==> label_position_of(mods) == Some(
            LabelPosition::Right,
        ),
        i < mods.len() && label_position_word(mods[i].node, "center"@) ==> label_position_of(mods) == Some(
            LabelPosition::Center,
        ),
    decreases i,
{
    reveal_strlit("left");
    reveal_strlit("right");
    reveal_strlit("center");
    assert("right"@ != "left"@) by {
        assert("right"@[0] != "left"@[0]);
    }
    assert("center"@ != "left"@) by {
        assert("center"@[0] != "left"@[0]);
    }
    assert("center"@ != "right"@) by {
        assert("center"@[0] != "right"@[0]);
    }
    if i > 0 {
        assert(!names_label_position(mods[0].node));
        let rest = mods.drop_first();
        assert forall|j: int| 0 <= j < i - 1 implies !names_label_position(#[trigger] rest[j].node) by {
            assert(rest[j] == mods[j + 1]);
        }
        if i < mods.len() {
            assert(rest[i - 1] == mods[i]);
        }
        lemma_label_position_keyword_names_position(rest, i - 1);
    }
}

/// The value of the first numeric `label_offset:` (`want_offset`) or
/// `label_at:` modifier.
pub open spec fn first_label_number(mods: Seq<Spanned<StyleModifier>>, want_offset: bool) -> Option<Num>
    decreases mods.len(),
{
    if mods.len() == 0 {
        None
    } else {
        let m = mods[0].node;
        if (if want_offset { m.key.node is LabelOffset } else { m.key.node is LabelAt }) && m.value.node is Number {
            Some(m.value.node->value)
        } else {
            first_label_number(mods.drop_first(), want_offset)
        }
    }
}

/// The perpendicular distance of a connection label from its path: the first
/// numeric `label_offset:`, negative values taken as zero; 10 when none.
pub open spec fn label_offset_of(mods: Seq<Spanned<StyleModifier>>) -> Num {
    match first_label_number(mods, true) {
        Some(v) => if v.milli < 0 { Num { milli: 0 } } else { v },
        None => Num { milli: 10000 },
    }
}

/// Where along its path a connection label sits, as a fraction: the first
/// numeric `label_at:`, clamped to 0..1; one half when none.
pub open spec fn label_at_of(mods: Seq<Spanned<StyleModifier>>) -> Num {
    match first_label_number(mods, false) {
        Some(v) => if v.milli < 0 {
            Num { milli: 0 }
        } else if v.milli > 1000 {
            Num { milli: 1000 }
        } else {
            v
        },
        None => Num { milli: 500 },
    }
}

fn find_label_number(modifiers: &Vec<Spanned<StyleModifier>>, want_offset: bool) -> (r: Option<Num>)
    ensures
        r == first_label_number(modifiers@, want_offset),
{
    let mut i: usize = 0;
    assert(modifiers@.subrange(0, modifiers@.len() as int) =~= modifiers@);
    while i < modifiers.len()
        invariant
            i <= modifiers@.len(),
            first_label_number(modifiers@, want_offset) == first_label_number(
                modifiers@.subrange(i as int, modifiers@.len() as int),
                want_offset,
            ),
        decreases modifiers@.len() - i,
    {
        let ghost rest = modifiers@.subrange(i as int, modifiers@.len() as int);
        assert(rest[0] == modifiers@[i as int]);
        assert(rest.drop_first() =~= modifiers@.subrange(i + 1, modifiers@.len() as int));
        let key_ok = match &modifiers[i].node.key.node {
            StyleKey::LabelOffset => want_offset,
            StyleKey::LabelAt => !want_offset,
            _ => false,
        };
        if key_ok {
            if let StyleValue::Number { value, .. } = &modifiers[i].node.value.node {
                return Some(*value);
            }
        }
        i = i + 1;
    }
    None
}

/// Extract the label offset of a connection label (see `label_offset_of`).
pub fn extract_label_offset(modifiers: &Vec<Spanned<StyleModifier>>) -> (r: Num)
    ensures
        r == label_offset_of(modifiers@),
{
    match find_label_number(modifiers, true) {
        Some(v) => if v.milli < 0 { Num { milli: 0 } } else { v },
        None => Num { milli: 10000 },
    }
}

/// Extract the position along the path of a connection label (see
/// `label_at_of`).
pub fn extract_label_at(modifiers: &Vec<Spanned<StyleModifier>>) -> (r: Num)
    ensures
        r == label_at_of(modifiers@),
{
    match find_label_number(modifiers, false) {
        Some(v) => if v.milli < 0 {
            Num { milli: 0 }
        } else if v.milli > 1000 {
            Num { milli: 1000 }
        } else {
            v
        },
        None => Num { milli: 500 },
    }
}

/// A label's offset is never negative, and a label's place along its path
/// is a fraction between 0 and 1; a first value already in range is taken
/// as written.
pub proof fn lemma_label_numbers_in_range(mods: Seq<Spanned<StyleModifier>>)
    ensures
        label_offset_of(mods).milli >= 0,
        0 <= label_at_of(mods).milli <= 1000,
        match first_label_number(mods, true) {
            Some(v) => v.milli >= 0 ==> label_offset_of(mods) == v,
            None => label_offset_of(mods).milli == 10000,
        },
        match first_label_number(mods, false) {
            Some(v) => 0 <= v.milli <= 1000 ==> label_at_of(mods) == v,
            None => label_at_of(mods).milli == 500,
        },
{
}

/// The names a `via:` value lists: an identifier, a keyword, or a list of
/// identifiers.
pub open spec fn via_names(v: StyleValue) -> Seq<Seq<char>> {
    match v {
        StyleValue::Identifier(id) => seq![id.0@],
        StyleValue::Keyword(k) => seq![k@],
        StyleValue::IdentifierList(ids) => ids@.map_values(|id: Identifier| id.0@),
        _ => Seq::empty(),
    }
}

/// The steering names of all `via:` modifiers, in order.
pub open spec fn via_references(mods: Seq<Spanned<StyleModifier>>) -> Seq<Seq<char>>
    decreases mods.len(),
{
    if mods.len() == 0 {
        Seq::empty()
    } else {
        via_references(mods.drop_last()) + match mods.last().node.key.node {
            StyleKey::Custom(k) => if k@ == "via"@ {
                via_names(mods.last().node.value.node)
            } else {
                Seq::empty()
            },
            _ => Seq::empty(),
        }
    }
}

/// Extract `via` references from connection modifiers: the names of the
/// elements the route is steered through.
pub fn extract_via_references(modifiers: &Vec<Spanned<StyleModifier>>) -> (r: Vec<String>)
    ensures
        views(r@) == via_references(modifiers@),
{
    let mut via_refs: Vec<String> = Vec::new();
    let mut i: usize = 0;
    while i < modifiers.len()
        invariant
            i <= modifiers@.len(),
            views(via_refs@) == via_references(modifiers@.subrange(0, i as int)),
        decreases modifiers@.len() - i,
    {
        let ghost sub = modifiers@.subrange(0, i + 1);
        assert(sub.drop_last() =~= modifiers@.subrange(0, i as int));
        assert(sub.last() == modifiers@[i as int]);
        let ghost before = views(via_refs@);
        let is_via = match &modifiers[i].node.key.node {
            StyleKey::Custom(k) => str_eq(k.as_str(), "via"),
            _ => false,
        };
        if is_via {
            match &modifiers[i].node.value.node {
                StyleValue::Identifier(id) => {
                    via_refs.push(id.0.clone());
                    assert(views(via_refs@) =~= before + seq![id.0@]);
                },
                StyleValue::Keyword(k) => {
                    via_refs.push(k.clone());
                    assert(views(via_refs@) =~= before + seq![k@]);
                },
                StyleValue::IdentifierList(ids) => {
                    let mut k: usize = 0;
                    while k < ids.len()
                        invariant
                            k <= ids@.len(),
                            views(via_refs@) == before + ids@.subrange(0, k as int).map_values(|id: Identifier| id.0@),
                        decreases ids@.len() - k,
                    {
                        let ghost b2 = views(via_refs@);
                        via_refs.push(ids[k].0.clone());
                        k = k + 1;
                        assert(views(via_refs@) =~= before + ids@.subrange(0, k as int).map_values(|id: Identifier| id.0@)) by {
                            assert(views(via_refs@) =~= b2.push(ids@[k - 1].0@));
                        }
                    }
                    assert(ids@.subrange(0, k as int) =~= ids@);
                },
                _ => {
                    assert(views(via_refs@) =~= before + Seq::<Seq<char>>::empty());
                },
            }
        } else {
            assert(views(via_refs@) =~= before + Seq::<Seq<char>>::empty());
        }
        i = i + 1;
    }
    assert(modifiers@.subrange(0, i as int) =~= modifiers@);
    via_refs
}

} // verus!
