//! Keyframes of animated diagrams: the visibility and transform state of each
//! frame, computed cumulatively from the keyframe declarations.

use vstd::prelude::*;
use crate::ast::{
    clone_modifiers, key_eq, same_key, same_modifiers, ConstraintExpr, Document, Identifier,
    KeyframeDecl, KeyframeOp, Spanned, Statement, StyleKey, StyleModifier, StyleValue,
};
use crate::collections::{NameMap, NameSet};

verus! {

/// Visibility and transform state for a single frame.
#[derive(Debug)]
pub struct FrameState {
    /// Frame name (from the keyframe declaration).
    pub name: String,
    /// Elements hidden in this frame (by id).
    pub hidden_elements: NameSet,
    /// Connections hidden in this frame (by name).
    pub hidden_connections: NameSet,
    /// Per-element transform overrides (element id to style modifiers).
    pub transforms: NameMap<Vec<Spanned<StyleModifier>>>,
    /// If true, constraints are not re-solved for this frame.
    pub no_resolve: bool,
}

// ---------------------------------------------------------------------------
// The model: what each frame holds
// ---------------------------------------------------------------------------

/// The names a list of targets designates.
pub open spec fn target_names(ts: Seq<Spanned<Identifier>>) -> Set<Seq<char>> {
    Set::new(|s: Seq<char>| exists|i: int| 0 <= i < ts.len() && #[trigger] ts[i].node.0@ == s)
}

/// Hidden names after one operation: `show` reveals its targets, `hide`
/// hides them, a transform changes no visibility.
pub open spec fn op_hidden(h: Set<Seq<char>>, op: KeyframeOp) -> Set<Seq<char>> {
    match op {
        KeyframeOp::Show(ts) => h.difference(target_names(ts@)),
        KeyframeOp::Hide(ts) => h.union(target_names(ts@)),
        KeyframeOp::Transform { .. } => h,
    }
}

/// Hidden names after a keyframe's operations, applied in order.
pub open spec fn ops_hidden(h: Set<Seq<char>>, ops: Seq<Spanned<KeyframeOp>>) -> Set<Seq<char>>
    decreases ops.len(),
{
    if ops.len() == 0 {
        h
    } else {
        op_hidden(ops_hidden(h, ops.drop_last()), ops.last().node)
    }
}

/// Hidden names after the first `n` keyframes: each frame starts from the
/// state the previous one left.
pub open spec fn hidden_after(kfs: Seq<&KeyframeDecl>, n: nat) -> Set<Seq<char>>
    decreases n,
{
    if n == 0 || n > kfs.len() {
        Set::empty()
    } else {
        ops_hidden(hidden_after(kfs, (n - 1) as nat), kfs[n - 1].operations@)
    }
}

/// The modifiers of `entry` whose key is not `k`, in order.
pub open spec fn without_key(entry: Seq<Spanned<StyleModifier>>, k: StyleKey) -> Seq<
    Spanned<StyleModifier>,
>
    decreases entry.len(),
{
    if entry.len() == 0 {
        Seq::empty()
    } else {
        let rest = without_key(entry.drop_last(), k);
        if key_eq(entry.last().node.key.node, k) {
            rest
        } else {
            rest.push(entry.last())
        }
    }
}

/// Adds `m` to an element's transform: an earlier modifier with the same key
/// is dropped and `m` goes last.
pub open spec fn merge_modifier(entry: Seq<Spanned<StyleModifier>>, m: Spanned<StyleModifier>) -> Seq<
    Spanned<StyleModifier>,
> {
    without_key(entry, m.node.key.node).push(m)
}

/// Adds the modifiers `ms` in order.
pub open spec fn merge_modifiers(entry: Seq<Spanned<StyleModifier>>, ms: Seq<Spanned<StyleModifier>>) -> Seq<
    Spanned<StyleModifier>,
>
    decreases ms.len(),
{
    if ms.len() == 0 {
        entry
    } else {
        merge_modifier(merge_modifiers(entry, ms.drop_last()), ms.last())
    }
}

/// Transforms after one operation.
pub open spec fn op_transforms(t: Map<Seq<char>, Seq<Spanned<StyleModifier>>>, op: KeyframeOp) -> Map<
    Seq<char>,
    Seq<Spanned<StyleModifier>>,
> {
    match op {
        KeyframeOp::Transform { target, modifiers } => {
            let k = target.node.0@;
            let base = if t.contains_key(k) {
                t[k]
            } else {
                Seq::empty()
            };
            t.insert(k, merge_modifiers(base, modifiers@))
        },
        _ => t,
    }
}

/// Transforms after a keyframe's operations.
pub open spec fn ops_transforms(t: Map<Seq<char>, Seq<Spanned<StyleModifier>>>, ops: Seq<Spanned<KeyframeOp>>) -> Map<
    Seq<char>,
    Seq<Spanned<StyleModifier>>,
>
    decreases ops.len(),
{
    if ops.len() == 0 {
        t
    } else {
        op_transforms(ops_transforms(t, ops.drop_last()), ops.last().node)
    }
}

/// Transforms after the first `n` keyframes; they persist from frame to frame.
pub open spec fn transforms_after(kfs: Seq<&KeyframeDecl>, n: nat) -> Map<Seq<char>, Seq<Spanned<StyleModifier>>>
    decreases n,
{
    if n == 0 || n > kfs.len() {
        Map::empty()
    } else {
        ops_transforms(transforms_after(kfs, (n - 1) as nat), kfs[n - 1].operations@)
    }
}

/// A map of transforms holds the modifiers of `t`, element by element.
pub open spec fn transforms_match(m: NameMap<Vec<Spanned<StyleModifier>>>, t: Map<Seq<char>, Seq<Spanned<StyleModifier>>>) -> bool {
    &&& m.wf()
    &&& forall|k: Seq<char>| #[trigger] m.lookup(k) is Some <==> t.contains_key(k)
    &&& forall|k: Seq<char>| #[trigger] m.lookup(k) is Some ==> same_modifiers(m.lookup(k).unwrap()@, t[k])
}

/// Frame `i` of `kfs`: its name and flag, and the state after keyframes `0..=i`.
pub open spec fn frame_ok(f: FrameState, kfs: Seq<&KeyframeDecl>, i: int) -> bool {
    &&& f.name@ == kfs[i].name.node@
    &&& f.no_resolve == kfs[i].no_resolve
    &&& f.hidden_elements.wf()
    &&& f.hidden_elements@ == hidden_after(kfs, (i + 1) as nat)
    &&& f.hidden_connections.wf()
    &&& f.hidden_connections@ == hidden_after(kfs, (i + 1) as nat)
    &&& transforms_match(f.transforms, transforms_after(kfs, (i + 1) as nat))
}

/// The keyframe declarations among the top-level statements, in order.
pub open spec fn keyframe_decls(ss: Seq<Spanned<Statement>>) -> Seq<KeyframeDecl>
    decreases ss.len(),
{
    if ss.len() == 0 {
        Seq::empty()
    } else {
        keyframe_decls(ss.drop_last()) + match ss.last().node {
            Statement::Keyframe(kf) => seq![kf],
            _ => Seq::empty(),
        }
    }
}

// ---------------------------------------------------------------------------
// Lemmas on modifier lists
// ---------------------------------------------------------------------------

proof fn lemma_value_same_trans(a: StyleValue, b: StyleValue, c: StyleValue)
    requires
        a.same(b),
        b.same(c),
    ensures
        a.same(c),
{
    match (a, b, c) {
        (StyleValue::IdentifierList(x), StyleValue::IdentifierList(y), StyleValue::IdentifierList(z)) => {},
        _ => {},
    }
}

proof fn lemma_same_trans(a: Seq<Spanned<StyleModifier>>, b: Seq<Spanned<StyleModifier>>, c: Seq<Spanned<StyleModifier>>)
    requires
        same_modifiers(a, b),
        same_modifiers(b, c),
    ensures
        same_modifiers(a, c),
{
    assert forall|i: int| 0 <= i < a.len() implies #[trigger] a[i].span == c[i].span && a[i].node.same(c[i].node) by {
        assert(a[i].span == b[i].span && a[i].node.same(b[i].node));
        assert(b[i].span == c[i].span && b[i].node.same(c[i].node));
        lemma_value_same_trans(a[i].node.value.node, b[i].node.value.node, c[i].node.value.node);
    }
}

proof fn lemma_same_refl(a: Seq<Spanned<StyleModifier>>)
    ensures
        same_modifiers(a, a),
{
    assert forall|i: int| 0 <= i < a.len() implies #[trigger] a[i].span == a[i].span && a[i].node.same(a[i].node) by {
        match a[i].node.value.node {
            StyleValue::IdentifierList(x) => {},
            _ => {},
        }
    }
}

proof fn lemma_without_key_same(a: Seq<Spanned<StyleModifier>>, b: Seq<Spanned<StyleModifier>>, k: StyleKey)
    requires
        same_modifiers(a, b),
    ensures
        same_modifiers(without_key(a, k), without_key(b, k)),
    decreases a.len(),
{
    if a.len() > 0 {
        assert(same_modifiers(a.drop_last(), b.drop_last())) by {
            assert forall|i: int| 0 <= i < a.drop_last().len() implies #[trigger] a.drop_last()[i].span == b.drop_last()[i].span
                && a.drop_last()[i].node.same(b.drop_last()[i].node) by {
                assert(a[i].span == b[i].span && a[i].node.same(b[i].node));
            }
        }
        lemma_without_key_same(a.drop_last(), b.drop_last(), k);
        assert(a.last().span == b.last().span && a.last().node.same(b.last().node));
        let ra = without_key(a.drop_last(), k);
        let rb = without_key(b.drop_last(), k);
        if !key_eq(a.last().node.key.node, k) {
            assert forall|i: int| 0 <= i < ra.push(a.last()).len() implies #[trigger] ra.push(a.last())[i].span
                == rb.push(b.last())[i].span && ra.push(a.last())[i].node.same(rb.push(b.last())[i].node) by {
                if i < ra.len() {
                    assert(ra[i].span == rb[i].span && ra[i].node.same(rb[i].node));
                }
            }
        }
    }
}

proof fn lemma_merge_same(a: Seq<Spanned<StyleModifier>>, b: Seq<Spanned<StyleModifier>>, m: Spanned<StyleModifier>)
    requires
        same_modifiers(a, b),
    ensures
        same_modifiers(merge_modifier(a, m), merge_modifier(b, m)),
{
    let k = m.node.key.node;
    lemma_without_key_same(a, b, k);
    lemma_same_refl(seq![m]);
    let ra = without_key(a, k);
    let rb = without_key(b, k);
    assert forall|i: int| 0 <= i < ra.push(m).len() implies #[trigger] ra.push(m)[i].span == rb.push(m)[i].span
        && ra.push(m)[i].node.same(rb.push(m)[i].node) by {
        if i < ra.len() {
            assert(ra[i].span == rb[i].span && ra[i].node.same(rb[i].node));
        } else {
            assert(seq![m][0] == m);
        }
    }
}

proof fn lemma_target_names_step(ts: Seq<Spanned<Identifier>>, i: int)
    requires
        0 <= i < ts.len(),
    ensures
        target_names(ts.subrange(0, i + 1)) == target_names(ts.subrange(0, i)).insert(ts[i].node.0@),
{
    let a = ts.subrange(0, i + 1);
    let b = ts.subrange(0, i);
    assert forall|s: Seq<char>| #[trigger] target_names(a).contains(s) <==> target_names(b).insert(ts[i].node.0@).contains(s) by {
        if target_names(a).contains(s) {
            let j = choose|j: int| 0 <= j < a.len() && #[trigger] a[j].node.0@ == s;
            if j < i {
                assert(b[j].node.0@ == s);
            }
        }
        if target_names(b).contains(s) {
            let j = choose|j: int| 0 <= j < b.len() && #[trigger] b[j].node.0@ == s;
            assert(a[j].node.0@ == s);
        }
        if s == ts[i].node.0@ {
            assert(a[i].node.0@ == s);
        }
    }
    assert(target_names(a) =~= target_names(b).insert(ts[i].node.0@));
}

// ---------------------------------------------------------------------------
// Laws of keyframe states
// ---------------------------------------------------------------------------

/// No two modifiers of the list share a key.
pub open spec fn keys_unique(e: Seq<Spanned<StyleModifier>>) -> bool {
    forall|i: int, j: int|
        0 <= i < j < e.len() ==> !key_eq(#[trigger] e[i].node.key.node, #[trigger] e[j].node.key.node)
}

/// The names an operation shows or hides.
pub open spec fn op_targets(op: KeyframeOp) -> Set<Seq<char>> {
    match op {
        KeyframeOp::Show(ts) => target_names(ts@),
        KeyframeOp::Hide(ts) => target_names(ts@),
        KeyframeOp::Transform { .. } => Set::empty(),
    }
}

proof fn lemma_key_eq_symmetric(a: StyleKey, b: StyleKey)
    ensures
        key_eq(a, b) == key_eq(b, a),
{
}

proof fn lemma_without_key(entry: Seq<Spanned<StyleModifier>>, k: StyleKey)
    ensures
        forall|x: Spanned<StyleModifier>| #[trigger] without_key(entry, k).contains(x)
            ==> entry.contains(x) && !key_eq(x.node.key.node, k),
        forall|x: Spanned<StyleModifier>| #[trigger] entry.contains(x) && !key_eq(x.node.key.node, k)
            ==> without_key(entry, k).contains(x),
        keys_unique(entry) ==> keys_unique(without_key(entry, k)),
    decreases entry.len(),
{
    if entry.len() > 0 {
        let init = entry.drop_last();
        let last = entry.last();
        lemma_without_key(init, k);
        let rest = without_key(init, k);
        assert forall|x: Spanned<StyleModifier>| #[trigger] without_key(entry, k).contains(x)
            implies entry.contains(x) && !key_eq(x.node.key.node, k) by {
            if rest.contains(x) {
                let q = choose|q: int| 0 <= q < init.len() && init[q] == x;
                assert(entry[q] == x);
            } else {
                assert(x == last);
                assert(entry[entry.len() - 1] == x);
            }
        }
        assert forall|x: Spanned<StyleModifier>| #[trigger] entry.contains(x) && !key_eq(x.node.key.node, k)
            implies without_key(entry, k).contains(x) by {
            let q = choose|q: int| 0 <= q < entry.len() && entry[q] == x;
            if q < init.len() {
                assert(init[q] == x);
                assert(init.contains(x));
                assert(rest.contains(x));
                if !key_eq(last.node.key.node, k) {
                    let p = choose|p: int| 0 <= p < rest.len() && rest[p] == x;
                    assert(rest.push(last)[p] == x);
                }
            } else {
                assert(rest.push(last)[rest.len() as int] == x);
            }
        }
        if keys_unique(entry) {
            assert(keys_unique(init)) by {
                assert forall|i: int, j: int| 0 <= i < j < init.len() implies !key_eq(
                    #[trigger] init[i].node.key.node,
                    #[trigger] init[j].node.key.node,
                ) by {
                    assert(init[i] == entry[i] && init[j] == entry[j]);
                }
            }
            if !key_eq(last.node.key.node, k) {
                let r = rest.push(last);
                assert forall|i: int, j: int| 0 <= i < j < r.len() implies !key_eq(
                    #[trigger] r[i].node.key.node,
                    #[trigger] r[j].node.key.node,
                ) by {
                    if j < rest.len() {
                        assert(r[i] == rest[i] && r[j] == rest[j]);
                    } else {
                        assert(r[i] == rest[i]);
                        assert(rest.contains(rest[i]));
                        let q = choose|q: int| 0 <= q < init.len() && init[q] == rest[i];
                        assert(entry[q] == rest[i]);
                        assert(!key_eq(entry[q].node.key.node, entry[entry.len() - 1].node.key.node));
                    }
                }
            }
        }
    }
}

/// Merging modifiers into an element's transform: no two modifiers end up
/// with the same key (when none did before), each modifier comes from the
/// earlier transform or from the merged list, an earlier modifier whose key
/// no merged modifier has persists, and the last merged modifier comes last.
pub proof fn lemma_merge_modifiers(entry: Seq<Spanned<StyleModifier>>, ms: Seq<Spanned<StyleModifier>>)
    ensures
        keys_unique(entry) ==> keys_unique(merge_modifiers(entry, ms)),
        forall|x: Spanned<StyleModifier>| #[trigger] merge_modifiers(entry, ms).contains(x)
            ==> entry.contains(x) || ms.contains(x),
        forall|x: Spanned<StyleModifier>|
            #[trigger] entry.contains(x) && (forall|j: int| 0 <= j < ms.len() ==> !key_eq(#[trigger] ms[j].node.key.node, x.node.key.node))
                ==> merge_modifiers(entry, ms).contains(x),
        ms.len() > 0 ==> merge_modifiers(entry, ms).last() == ms.last(),
    decreases ms.len(),
{
    if ms.len() > 0 {
        let init = ms.drop_last();
        let m = ms.last();
        lemma_merge_modifiers(entry, init);
        let prev = merge_modifiers(entry, init);
        lemma_without_key(prev, m.node.key.node);
        let w = without_key(prev, m.node.key.node);
        let r = w.push(m);
        assert(merge_modifiers(entry, ms) == r);
        assert forall|x: Spanned<StyleModifier>| #[trigger] r.contains(x) implies entry.contains(x) || ms.contains(x) by {
            let q = choose|q: int| 0 <= q < r.len() && r[q] == x;
            if q < w.len() {
                assert(w.contains(x));
                if !entry.contains(x) {
                    assert(init.contains(x));
                    let p = choose|p: int| 0 <= p < init.len() && init[p] == x;
                    assert(ms[p] == x);
                }
            } else {
                assert(ms[ms.len() - 1] == x);
            }
        }
        assert forall|x: Spanned<StyleModifier>|
            #[trigger] entry.contains(x) && (forall|j: int| 0 <= j < ms.len() ==> !key_eq(#[trigger] ms[j].node.key.node, x.node.key.node))
            implies r.contains(x) by {
            assert forall|j: int| 0 <= j < init.len() implies !key_eq(#[trigger] init[j].node.key.node, x.node.key.node) by {
                assert(init[j] == ms[j]);
            }
            assert(prev.contains(x));
            assert(!key_eq(ms[ms.len() - 1].node.key.node, x.node.key.node));
            lemma_key_eq_symmetric(m.node.key.node, x.node.key.node);
            assert(w.contains(x));
            let q = choose|q: int| 0 <= q < w.len() && w[q] == x;
            assert(r[q] == x);
        }
        if keys_unique(entry) {
            assert forall|i: int, j: int| 0 <= i < j < r.len() implies !key_eq(
                #[trigger] r[i].node.key.node,
                #[trigger] r[j].node.key.node,
            ) by {
                if j < w.len() {
                    assert(r[i] == w[i] && r[j] == w[j]);
                } else {
                    assert(r[i] == w[i]);
                    assert(w.contains(w[i]));
                }
            }
        }
    }
}

/// Every element's running transform has at most one modifier per key.
pub proof fn lemma_transform_keys_unique(kfs: Seq<&KeyframeDecl>, n: nat)
    ensures
        forall|k: Seq<char>| #[trigger] transforms_after(kfs, n).contains_key(k)
            ==> keys_unique(transforms_after(kfs, n)[k]),
    decreases n,
{
    if n > 0 && n <= kfs.len() {
        lemma_transform_keys_unique(kfs, (n - 1) as nat);
        lemma_ops_transforms_unique(transforms_after(kfs, (n - 1) as nat), kfs[n - 1].operations@);
    }
}

proof fn lemma_ops_transforms_unique(t: Map<Seq<char>, Seq<Spanned<StyleModifier>>>, ops: Seq<Spanned<KeyframeOp>>)
    requires
        forall|k: Seq<char>| #[trigger] t.contains_key(k) ==> keys_unique(t[k]),
    ensures
        forall|k: Seq<char>| #[trigger] ops_transforms(t, ops).contains_key(k)
            ==> keys_unique(ops_transforms(t, ops)[k]),
    decreases ops.len(),
{
    if ops.len() > 0 {
        lemma_ops_transforms_unique(t, ops.drop_last());
        let prev = ops_transforms(t, ops.drop_last());
        match ops.last().node {
            KeyframeOp::Transform { target, modifiers } => {
                let k = target.node.0@;
                let base = if prev.contains_key(k) {
                    prev[k]
                } else {
                    Seq::empty()
                };
                lemma_merge_modifiers(base, modifiers@);
            },
            _ => {},
        }
    }
}

/// A name that keyframe `n` neither shows nor hides keeps its visibility
/// from the previous frame.
pub proof fn lemma_untouched_name_keeps_visibility(kfs: Seq<&KeyframeDecl>, n: nat, s: Seq<char>)
    requires
        n < kfs.len(),
        forall|j: int| 0 <= j < kfs[n as int].operations@.len() ==> !(#[trigger] op_targets(kfs[n as int].operations@[j].node)).contains(s),
    ensures
        hidden_after(kfs, n + 1).contains(s) == hidden_after(kfs, n).contains(s),
{
    lemma_ops_untouched(hidden_after(kfs, n), kfs[n as int].operations@, s);
}

proof fn lemma_ops_untouched(h: Set<Seq<char>>, ops: Seq<Spanned<KeyframeOp>>, s: Seq<char>)
    requires
        forall|j: int| 0 <= j < ops.len() ==> !(#[trigger] op_targets(ops[j].node)).contains(s),
    ensures
        ops_hidden(h, ops).contains(s) == h.contains(s),
    decreases ops.len(),
{
    if ops.len() > 0 {
        assert forall|j: int| 0 <= j < ops.drop_last().len() implies !(#[trigger] op_targets(ops.drop_last()[j].node)).contains(s) by {
            assert(ops.drop_last()[j] == ops[j]);
        }
        lemma_ops_untouched(h, ops.drop_last(), s);
        assert(!op_targets(ops[ops.len() - 1].node).contains(s));
    }
}

/// After keyframe `n`, a name its last visibility operation on that name
/// hid is hidden, and one it showed is visible.
pub proof fn lemma_last_operation_decides(h: Set<Seq<char>>, ops: Seq<Spanned<KeyframeOp>>, s: Seq<char>)
    requires
        ops.len() > 0,
        op_targets(ops.last().node).contains(s),
    ensures
        ops_hidden(h, ops).contains(s) == (ops.last().node is Hide),
{
}

// ---------------------------------------------------------------------------
// Computing the frames
// ---------------------------------------------------------------------------

/// Drops the modifiers with key `k` and appends a copy of `m`.
fn merge_into(entry: &mut Vec<Spanned<StyleModifier>>, m: &Spanned<StyleModifier>)
    ensures
        same_modifiers(final(entry)@, merge_modifier(old(entry)@, *m)),
{
    let ghost orig = entry@;
    let ghost k = m.node.key.node;
    let mut i: usize = 0;
    let ghost mut j: int = 0;
    while i < entry.len()
        invariant
            0 <= i <= j <= orig.len(),
            i <= entry@.len(),
            k == m.node.key.node,
            entry@.subrange(0, i as int) == without_key(orig.subrange(0, j), k),
            entry@.subrange(i as int, entry@.len() as int) == orig.subrange(j, orig.len() as int),
        decreases entry@.len() - i,
    {
        let ghost e = entry@;
        assert(e.subrange(i as int, e.len() as int).len() == e.len() - i);
        assert(j < orig.len());
        assert(orig.subrange(0, j + 1).drop_last() =~= orig.subrange(0, j));
        assert(e.subrange(i as int, e.len() as int)[0] == orig.subrange(j, orig.len() as int)[0]);
        assert(e[i as int] == orig[j]);
        assert(orig.subrange(0, j + 1).last() == orig[j]);
        assert(e.subrange(i + 1, e.len() as int) =~= e.subrange(i as int, e.len() as int).subrange(1, e.len() - i));
        assert(orig.subrange(j + 1, orig.len() as int) =~= orig.subrange(j, orig.len() as int).subrange(1, orig.len() - j));
        if same_key(&entry[i].node.key.node, &m.node.key.node) {
            let _ = entry.remove(i);
            assert(entry@.subrange(0, i as int) =~= e.subrange(0, i as int));
            assert(entry@.subrange(i as int, entry@.len() as int) =~= e.subrange(i + 1, e.len() as int));
        } else {
            assert(entry@.subrange(0, i + 1) =~= e.subrange(0, i as int).push(orig[j]));
            i = i + 1;
            assert(entry@.subrange(i as int, entry@.len() as int) =~= e.subrange(i as int, e.len() as int));
        }
        proof {
            j = j + 1;
        }
    }
    assert(entry@.subrange(i as int, entry@.len() as int).len() == 0);
    assert(j == orig.len());
    assert(entry@ =~= entry@.subrange(0, i as int));
    assert(orig.subrange(0, j) =~= orig);
    let ghost before = entry@;
    entry.push(m.clone());
    proof {
        lemma_same_refl(before);
        let want = merge_modifier(orig, *m);
        assert(want == before.push(*m));
        assert forall|q: int| 0 <= q < entry@.len() implies #[trigger] entry@[q].span == want[q].span
            && entry@[q].node.same(want[q].node) by {
            if q < before.len() {
                assert(entry@[q] == before[q]);
                assert(want[q] == before[q]);
                assert(before[q].node.same(before[q].node));
            }
        }
    }
}

/// A copy of a transform map.
fn copy_transforms(m: &NameMap<Vec<Spanned<StyleModifier>>>) -> (r: NameMap<Vec<Spanned<StyleModifier>>>)
    requires
        m.wf(),
    ensures
        r.wf(),
        forall|k: Seq<char>| #[trigger] r.lookup(k) is Some <==> m.lookup(k) is Some,
        forall|k: Seq<char>| #[trigger] r.lookup(k) is Some ==> same_modifiers(r.lookup(k).unwrap()@, m.lookup(k).unwrap()@),
{
    let mut r: NameMap<Vec<Spanned<StyleModifier>>> = NameMap::new();
    let mut i: usize = 0;
    while i < m.len()
        invariant
            i <= m.entries().len(),
            m.wf(),
            r.wf(),
            forall|k: Seq<char>| #[trigger] r.lookup(k) is Some <==> exists|j: int| 0 <= j < i && m.entries()[j].0@ == k,
            forall|k: Seq<char>| #[trigger] r.lookup(k) is Some ==> m.lookup(k) is Some
                && same_modifiers(r.lookup(k).unwrap()@, m.lookup(k).unwrap()@),
        decreases m.entries().len() - i,
    {
        let (k, v) = m.entry_at(i);
        let copy = clone_modifiers(v);
        proof {
            m.lemma_lookup_at(i as int);
        }
        r.insert(k.clone(), copy);
        assert forall|k2: Seq<char>| #[trigger] r.lookup(k2) is Some <==> exists|j: int| 0 <= j < i + 1 && m.entries()[j].0@ == k2 by {
            if k2 != k@ {
                if exists|j: int| 0 <= j < i + 1 && m.entries()[j].0@ == k2 {
                    let j = choose|j: int| 0 <= j < i + 1 && m.entries()[j].0@ == k2;
                    assert(j < i);
                }
            } else {
                assert(m.entries()[i as int].0@ == k2);
            }
        }
        i = i + 1;
    }
    assert forall|k: Seq<char>| m.lookup(k) is Some implies #[trigger] r.lookup(k) is Some by {
        {
            let j = choose|j: int| 0 <= j < m.entries().len() && #[trigger] m.entries()[j].0@ == k;
            assert(m.entries()[j].0@ == k);
        }
    }
    r
}

/// Applies one `show` or `hide`: every target leaves or joins the set.
fn apply_visibility(set: &mut NameSet, targets: &Vec<Spanned<Identifier>>, hide: bool)
    requires
        old(set).wf(),
    ensures
        final(set).wf(),
        final(set)@ == if hide {
            old(set)@.union(target_names(targets@))
        } else {
            old(set)@.difference(target_names(targets@))
        },
{
    let mut i: usize = 0;
    while i < targets.len()
        invariant
            i <= targets@.len(),
            set.wf(),
            set@ == if hide {
                old(set)@.union(target_names(targets@.subrange(0, i as int)))
            } else {
                old(set)@.difference(target_names(targets@.subrange(0, i as int)))
            },
        decreases targets@.len() - i,
    {
        proof {
            lemma_target_names_step(targets@, i as int);
        }
        let name = &targets[i].node.0;
        if hide {
            set.insert(name.clone());
            assert(set@ =~= old(set)@.union(target_names(targets@.subrange(0, i + 1))));
        } else {
            set.remove(name.as_str());
            assert(set@ =~= old(set)@.difference(target_names(targets@.subrange(0, i + 1))));
        }
        i = i + 1;
    }
    assert(targets@.subrange(0, i as int) =~= targets@);
}

/// Applies one transform operation to the transform map.
fn apply_transform(
    transforms: &mut NameMap<Vec<Spanned<StyleModifier>>>,
    target: &Spanned<Identifier>,
    modifiers: &Vec<Spanned<StyleModifier>>,
    Ghost(t): Ghost<Map<Seq<char>, Seq<Spanned<StyleModifier>>>>,
)
    requires
        transforms_match(*old(transforms), t),
    ensures
        transforms_match(
            *final(transforms),
            op_transforms(t, KeyframeOp::Transform { target: *target, modifiers: *modifiers }),
        ),
{
    let ghost k = target.node.0@;
    let ghost base: Seq<Spanned<StyleModifier>> = if t.contains_key(k) {
        t[k]
    } else {
        Seq::empty()
    };
    let mut entry: Vec<Spanned<StyleModifier>> = match transforms.get(target.node.0.as_str()) {
        Some(v) => {
            let c = clone_modifiers(v);
            proof {
                lemma_same_trans(c@, v@, base);
            }
            c
        },
        None => Vec::new(),
    };
    let mut i: usize = 0;
    while i < modifiers.len()
        invariant
            i <= modifiers@.len(),
            same_modifiers(entry@, merge_modifiers(base, modifiers@.subrange(0, i as int))),
        decreases modifiers@.len() - i,
    {
        let ghost before = entry@;
        merge_into(&mut entry, &modifiers[i]);
        proof {
            let prev = merge_modifiers(base, modifiers@.subrange(0, i as int));
            lemma_merge_same(before, prev, modifiers@[i as int]);
            lemma_same_trans(entry@, merge_modifier(before, modifiers@[i as int]), merge_modifier(prev, modifiers@[i as int]));
            let sub = modifiers@.subrange(0, i + 1);
            assert(sub.drop_last() =~= modifiers@.subrange(0, i as int));
            assert(sub.last() == modifiers@[i as int]);
        }
        i = i + 1;
    }
    assert(modifiers@.subrange(0, i as int) =~= modifiers@);
    let ghost merged = merge_modifiers(base, modifiers@);
    transforms.insert(target.node.0.clone(), entry);
    let ghost want = t.insert(k, merged);
    assert forall|k2: Seq<char>| #[trigger] transforms.lookup(k2) is Some <==> want.contains_key(k2) by {
        if k2 != k {
            assert(transforms.lookup(k2) == old(transforms).lookup(k2));
        }
    }
    assert forall|k2: Seq<char>| #[trigger] transforms.lookup(k2) is Some implies same_modifiers(transforms.lookup(k2).unwrap()@, want[k2]) by {
        if k2 != k {
            assert(transforms.lookup(k2) == old(transforms).lookup(k2));
        }
    }
}

/// Applies a keyframe's operations, in order, to the running state.
fn apply_operations(
    kf: &KeyframeDecl,
    hidden_elements: &mut NameSet,
    hidden_connections: &mut NameSet,
    transforms: &mut NameMap<Vec<Spanned<StyleModifier>>>,
    Ghost(t): Ghost<Map<Seq<char>, Seq<Spanned<StyleModifier>>>>,
)
    requires
        old(hidden_elements).wf(),
        old(hidden_connections).wf(),
        transforms_match(*old(transforms), t),
    ensures
        final(hidden_elements).wf(),
        final(hidden_connections).wf(),
        final(hidden_elements)@ == ops_hidden(old(hidden_elements)@, kf.operations@),
        final(hidden_connections)@ == ops_hidden(old(hidden_connections)@, kf.operations@),
        transforms_match(*final(transforms), ops_transforms(t, kf.operations@)),
{
    let ghost he0 = hidden_elements@;
    let ghost hc0 = hidden_connections@;
    let mut i: usize = 0;
    while i < kf.operations.len()
        invariant
            i <= kf.operations@.len(),
            hidden_elements.wf(),
            hidden_connections.wf(),
            hidden_elements@ == ops_hidden(he0, kf.operations@.subrange(0, i as int)),
            hidden_connections@ == ops_hidden(hc0, kf.operations@.subrange(0, i as int)),
            transforms_match(*transforms, ops_transforms(t, kf.operations@.subrange(0, i as int))),
        decreases kf.operations@.len() - i,
    {
        let ghost sub = kf.operations@.subrange(0, i + 1);
        assert(sub.drop_last() =~= kf.operations@.subrange(0, i as int));
        assert(sub.last() == kf.operations@[i as int]);
        let ghost tprev = ops_transforms(t, kf.operations@.subrange(0, i as int));
        match &kf.operations[i].node {
            KeyframeOp::Show(targets) => {
                apply_visibility(hidden_elements, targets, false);
                apply_visibility(hidden_connections, targets, false);
            },
            KeyframeOp::Hide(targets) => {
                apply_visibility(hidden_elements, targets, true);
                apply_visibility(hidden_connections, targets, true);
            },
            KeyframeOp::Transform { target, modifiers } => {
                apply_transform(transforms, target, modifiers, Ghost(tprev));
            },
        }
        i = i + 1;
    }
    assert(kf.operations@.subrange(0, i as int) =~= kf.operations@);
}

/// Extract keyframe declarations from the document.
pub fn extract_keyframes(doc: &Document) -> (r: Vec<&KeyframeDecl>)
    ensures
        r@.len() == keyframe_decls(doc.statements@).len(),
        forall|i: int| 0 <= i < r@.len() ==> *r@[i] == #[trigger] keyframe_decls(doc.statements@)[i],
{
    let mut r: Vec<&KeyframeDecl> = Vec::new();
    let mut i: usize = 0;
    while i < doc.statements.len()
        invariant
            i <= doc.statements@.len(),
            r@.len() == keyframe_decls(doc.statements@.subrange(0, i as int)).len(),
            forall|j: int| 0 <= j < r@.len() ==> *r@[j] == #[trigger] keyframe_decls(doc.statements@.subrange(0, i as int))[j],
        decreases doc.statements@.len() - i,
    {
        let ghost sub = doc.statements@.subrange(0, i + 1);
        assert(sub.drop_last() =~= doc.statements@.subrange(0, i as int));
        assert(sub.last() == doc.statements@[i as int]);
        let ghost prev = keyframe_decls(doc.statements@.subrange(0, i as int));
        match &doc.statements[i].node {
            Statement::Keyframe(kf) => {
                r.push(kf);
                assert(keyframe_decls(sub) == prev + seq![*kf]);
                assert forall|j: int| 0 <= j < r@.len() implies *r@[j] == #[trigger] keyframe_decls(sub)[j] by {
                    if j < prev.len() {
                    }
                }
            },
            _ => {
                assert(keyframe_decls(sub) =~= prev);
            },
        }
        i = i + 1;
    }
    assert(doc.statements@.subrange(0, i as int) =~= doc.statements@);
    r
}

/// Compute cumulative frame states from keyframe declarations: each frame
/// builds on the previous frame's state. `show` and `hide` apply to element
/// and connection names alike; a transform adds its modifiers to the
/// element's running transform, a later modifier replacing an earlier one
/// with the same key.
pub fn compute_frame_states(keyframes: &[&KeyframeDecl]) -> (r: Vec<FrameState>)
    ensures
        r@.len() == keyframes@.len(),
        forall|i: int| 0 <= i < r@.len() ==> frame_ok(#[trigger] r@[i], keyframes@, i),
{
    let mut frames: Vec<FrameState> = Vec::new();
    let mut hidden_elements = NameSet::new();
    let mut hidden_connections = NameSet::new();
    let mut transforms: NameMap<Vec<Spanned<StyleModifier>>> = NameMap::new();
    let ghost kfs = keyframes@;
    proof {
        assert(transforms_match(transforms, transforms_after(kfs, 0)));
    }
    let mut n: usize = 0;
    while n < keyframes.len()
        invariant
            n <= kfs.len(),
            kfs == keyframes@,
            frames@.len() == n,
            forall|i: int| 0 <= i < n ==> frame_ok(#[trigger] frames@[i], kfs, i),
            hidden_elements.wf(),
            hidden_connections.wf(),
            hidden_elements@ == hidden_after(kfs, n as nat),
            hidden_connections@ == hidden_after(kfs, n as nat),
            transforms_match(transforms, transforms_after(kfs, n as nat)),
        decreases kfs.len() - n,
    {
        let kf = keyframes[n];
        apply_operations(
            kf,
            &mut hidden_elements,
            &mut hidden_connections,
            &mut transforms,
            Ghost(transforms_after(kfs, n as nat)),
        );
        let copied = copy_transforms(&transforms);
        let ghost tn = transforms_after(kfs, (n + 1) as nat);
        assert forall|k: Seq<char>| #[trigger] copied.lookup(k) is Some implies same_modifiers(copied.lookup(k).unwrap()@, tn[k]) by {
            lemma_same_trans(copied.lookup(k).unwrap()@, transforms.lookup(k).unwrap()@, tn[k]);
        }
        let frame = FrameState {
            name: kf.name.node.clone(),
            hidden_elements: hidden_elements.copy(),
            hidden_connections: hidden_connections.copy(),
            transforms: copied,
            no_resolve: kf.no_resolve,
        };
        frames.push(frame);
        n = n + 1;
    }
    frames
}

/// The names of `all_element_ids` that the frame does not hide.
pub fn visible_elements_in_frame(all_element_ids: &NameSet, frame_state: &FrameState) -> (r: NameSet)
    requires
        all_element_ids.wf(),
    ensures
        r.wf(),
        r@ == all_element_ids@.difference(frame_state.hidden_elements@),
{
    all_element_ids.difference(&frame_state.hidden_elements)
}

// ---------------------------------------------------------------------------
// Constraints that transformed elements no longer obey
// ---------------------------------------------------------------------------

/// Keys that move or resize an element.
pub open spec fn is_geometry_key(k: StyleKey) -> bool {
    ||| k is X
    ||| k is Y
    ||| k is Width
    ||| k is Height
    ||| k is Dx
    ||| k is Dy
    ||| k is Scale
}

/// Some modifier of the list moves or resizes its element.
pub open spec fn has_geometry(ms: Seq<Spanned<StyleModifier>>) -> bool {
    exists|i: int| 0 <= i < ms.len() && is_geometry_key(#[trigger] ms[i].node.key.node)
}

/// The frame moves or resizes the element `id`.
pub open spec fn geometry_transformed(state: FrameState, id: Seq<char>) -> bool {
    match state.transforms.lookup(id) {
        Some(ms) => has_geometry(ms@),
        None => false,
    }
}

/// The element on the left-hand side of a constraint expression (the
/// container of a `contains` constraint).
pub open spec fn lhs_element(e: ConstraintExpr) -> Seq<char> {
    match e {
        ConstraintExpr::Equal { left, .. } => left.element.node.leaf_text(),
        ConstraintExpr::EqualWithOffset { left, .. } => left.element.node.leaf_text(),
        ConstraintExpr::Constant { left, .. } => left.element.node.leaf_text(),
        ConstraintExpr::GreaterOrEqual { left, .. } => left.element.node.leaf_text(),
        ConstraintExpr::LessOrEqual { left, .. } => left.element.node.leaf_text(),
        ConstraintExpr::Midpoint { target, .. } => target.element.node.leaf_text(),
        ConstraintExpr::Contains { container, .. } => container.node.0@,
    }
}

/// A `constrain` statement whose left-hand element the frame moves or resizes.
pub open spec fn dropped_for(s: Statement, state: FrameState) -> bool {
    match s {
        Statement::Constrain(c) => geometry_transformed(state, lhs_element(c.expr)),
        _ => false,
    }
}

/// The statements that stay, in order.
pub open spec fn kept_statements(ss: Seq<Spanned<Statement>>, state: FrameState) -> Seq<Spanned<Statement>>
    decreases ss.len(),
{
    if ss.len() == 0 {
        Seq::empty()
    } else {
        let rest = kept_statements(ss.drop_last(), state);
        if dropped_for(ss.last().node, state) {
            rest
        } else {
            rest.push(ss.last())
        }
    }
}

/// A frame that moves and resizes nothing keeps every statement.
pub proof fn lemma_no_geometry_keeps_document(ss: Seq<Spanned<Statement>>, state: FrameState)
    requires
        forall|id: Seq<char>| !#[trigger] geometry_transformed(state, id),
    ensures
        kept_statements(ss, state) == ss,
    decreases ss.len(),
{
    if ss.len() > 0 {
        lemma_no_geometry_keeps_document(ss.drop_last(), state);
        match ss.last().node {
            Statement::Constrain(c) => {
                assert(!geometry_transformed(state, lhs_element(c.expr)));
            },
            _ => {},
        }
        assert(ss.drop_last().push(ss.last()) =~= ss);
    }
}

/// The keys that move or resize an element are exactly the position keys
/// (x, y), the size keys (width, height), the offset keys (dx, dy) and scale.
pub proof fn lemma_geometry_keys(k: StyleKey)
    ensures
        is_geometry_key(k) <==> (k is X || k is Y || k is Width || k is Height || k is Dx || k is Dy
            || k is Scale),
{
}

/// What the rewrite keeps: statements of the document, in order, none of
/// them one the frame drops, and every statement that is not a `constrain`.
pub proof fn lemma_kept_statements(ss: Seq<Spanned<Statement>>, state: FrameState)
    ensures
        kept_statements(ss, state).len() <= ss.len(),
        forall|k: int|
            0 <= k < kept_statements(ss, state).len() ==> ss.contains(#[trigger] kept_statements(ss, state)[k])
                && !dropped_for(kept_statements(ss, state)[k].node, state),
        forall|k: int|
            0 <= k < ss.len() && !(#[trigger] ss[k].node is Constrain) ==> kept_statements(ss, state).contains(ss[k]),
    decreases ss.len(),
{
    if ss.len() > 0 {
        let p = ss.drop_last();
        lemma_kept_statements(p, state);
        let rest = kept_statements(p, state);
        assert forall|k: int|
            0 <= k < kept_statements(ss, state).len() implies ss.contains(#[trigger] kept_statements(ss, state)[k])
                && !dropped_for(kept_statements(ss, state)[k].node, state) by {
            if k < rest.len() {
                assert(kept_statements(ss, state)[k] == rest[k]);
                let w = choose|w: int| 0 <= w < p.len() && p[w] == rest[k];
                assert(ss[w] == p[w]);
            } else {
                assert(kept_statements(ss, state)[k] == ss.last());
                assert(ss[ss.len() - 1] == ss.last());
            }
        }
        assert forall|k: int|
            0 <= k < ss.len() && !(#[trigger] ss[k].node is Constrain) implies kept_statements(ss, state).contains(ss[k]) by {
            if k < ss.len() - 1 {
                assert(p[k] == ss[k]);
                assert(rest.contains(p[k]));
                let w = choose|w: int| 0 <= w < rest.len() && rest[w] == p[k];
                if dropped_for(ss.last().node, state) {
                } else {
                    assert(kept_statements(ss, state)[w] == rest[w]);
                }
            } else {
                assert(ss[k] == ss.last());
                assert(!dropped_for(ss.last().node, state));
                assert(kept_statements(ss, state)[rest.len() as int] == ss.last());
            }
        }
    }
}

/// A frame whose transform of an element sets its position, size, offset or
/// scale removes every `constrain` statement whose left-hand element is that
/// element, and keeps every statement that is not a `constrain`.
pub proof fn lemma_moved_element_loses_its_constraints(
    ss: Seq<Spanned<Statement>>,
    state: FrameState,
    id: Seq<char>,
    ms: Vec<Spanned<StyleModifier>>,
    i: int,
)
    requires
        state.transforms.lookup(id) == Some(ms),
        0 <= i < ms@.len(),
        ms@[i].node.key.node is X || ms@[i].node.key.node is Y || ms@[i].node.key.node is Width
            || ms@[i].node.key.node is Height || ms@[i].node.key.node is Dx || ms@[i].node.key.node is Dy
            || ms@[i].node.key.node is Scale,
    ensures
        forall|k: int|
            0 <= k < kept_statements(ss, state).len() ==> !(#[trigger] kept_statements(ss, state)[k].node matches Statement::Constrain(c)
                && lhs_element(c.expr) == id),
        forall|k: int|
            0 <= k < ss.len() && !(#[trigger] ss[k].node is Constrain) ==> kept_statements(ss, state).contains(ss[k]),
{
    lemma_geometry_keys(ms@[i].node.key.node);
    assert(is_geometry_key(ms@[i].node.key.node));
    assert(has_geometry(ms@));
    assert(geometry_transformed(state, id));
    lemma_kept_statements(ss, state);
}

/// Extract the element name from the left-hand side of a constraint
/// expression (the container of a `contains` constraint).
fn get_constraint_lhs_element(expr: &ConstraintExpr) -> (r: Option<String>)
    ensures
        r matches Some(s) && s@ == lhs_element(*expr),
{
    match expr {
        ConstraintExpr::Equal { left, .. } => Some(left.element.node.leaf_string()),
        ConstraintExpr::EqualWithOffset { left, .. } => Some(left.element.node.leaf_string()),
        ConstraintExpr::Constant { left, .. } => Some(left.element.node.leaf_string()),
        ConstraintExpr::GreaterOrEqual { left, .. } => Some(left.element.node.leaf_string()),
        ConstraintExpr::LessOrEqual { left, .. } => Some(left.element.node.leaf_string()),
        ConstraintExpr::Midpoint { target, .. } => Some(target.element.node.leaf_string()),
        ConstraintExpr::Contains { container, .. } => Some(container.node.0.clone()),
    }
}

fn is_geometry_key_exec(k: &StyleKey) -> (r: bool)
    ensures
        r == is_geometry_key(*k),
{
    match k {
        StyleKey::X | StyleKey::Y | StyleKey::Width | StyleKey::Height | StyleKey::Dx | StyleKey::Dy
        | StyleKey::Scale => true,
        _ => false,
    }
}

fn has_geometry_exec(ms: &Vec<Spanned<StyleModifier>>) -> (r: bool)
    ensures
        r == has_geometry(ms@),
{
    let mut i: usize = 0;
    while i < ms.len()
        invariant
            i <= ms@.len(),
            forall|j: int| 0 <= j < i ==> !is_geometry_key(#[trigger] ms@[j].node.key.node),
        decreases ms@.len() - i,
    {
        if is_geometry_key_exec(&ms[i].node.key.node) {
            return true;
        }
        i = i + 1;
    }
    false
}

fn is_dropped(stmt: &Statement, state: &FrameState) -> (r: bool)
    requires
        state.transforms.wf(),
    ensures
        r == dropped_for(*stmt, *state),
{
    match stmt {
        Statement::Constrain(c) => {
            match get_constraint_lhs_element(&c.expr) {
                Some(name) => match state.transforms.get(name.as_str()) {
                    Some(ms) => has_geometry_exec(ms),
                    None => false,
                },
                None => false,
            }
        },
        _ => false,
    }
}

/// Remove the `constrain` statements whose left-hand element the frame
/// moves or resizes, so that the solver takes the transformed position and
/// size as given and moves dependents after them.
pub fn rewrite_constraints_for_transforms(doc: Document, state: &FrameState) -> (r: Document)
    requires
        state.transforms.wf(),
    ensures
        r.statements@ == kept_statements(doc.statements@, *state),
{
    let mut statements = doc.statements;
    let ghost orig = statements@;
    let mut i: usize = 0;
    let ghost mut j: int = 0;
    while i < statements.len()
        invariant
            0 <= i <= j <= orig.len(),
            i <= statements@.len(),
            state.transforms.wf(),
            statements@.subrange(0, i as int) == kept_statements(orig.subrange(0, j), *state),
            statements@.subrange(i as int, statements@.len() as int) == orig.subrange(j, orig.len() as int),
        decreases statements@.len() - i,
    {
        let ghost e = statements@;
        assert(e.subrange(i as int, e.len() as int).len() == e.len() - i);
        assert(j < orig.len());
        assert(orig.subrange(0, j + 1).drop_last() =~= orig.subrange(0, j));
        assert(e.subrange(i as int, e.len() as int)[0] == orig.subrange(j, orig.len() as int)[0]);
        assert(e[i as int] == orig[j]);
        assert(orig.subrange(0, j + 1).last() == orig[j]);
        assert(e.subrange(i + 1, e.len() as int) =~= e.subrange(i as int, e.len() as int).subrange(1, e.len() - i));
        assert(orig.subrange(j + 1, orig.len() as int) =~= orig.subrange(j, orig.len() as int).subrange(1, orig.len() - j));
        if is_dropped(&statements[i].node, state) {
            let _ = statements.remove(i);
            assert(statements@.subrange(0, i as int) =~= e.subrange(0, i as int));
            assert(statements@.subrange(i as int, statements@.len() as int) =~= e.subrange(i + 1, e.len() as int));
        } else {
            assert(statements@.subrange(0, i + 1) =~= e.subrange(0, i as int).push(orig[j]));
            i = i + 1;
        }
        proof {
            j = j + 1;
        }
    }
    assert(statements@.subrange(i as int, statements@.len() as int).len() == 0);
    assert(statements@ =~= statements@.subrange(0, i as int));
    assert(orig.subrange(0, j) =~= orig);
    Document { statements }
}

/// The keys a frame's transform applies: position, size, scale, rotation,
/// opacity, fill and stroke.
pub open spec fn animatable(k: StyleKey) -> bool {
    is_geometry_key(k) || k is Rotation || k is Opacity || k is Fill || k is Stroke
}

/// The keys a frame can animate are exactly position, size, offset, scale,
/// rotation, opacity, fill and stroke.
pub proof fn lemma_animatable_keys(k: StyleKey)
    ensures
        animatable(k) <==> (k is X || k is Y || k is Width || k is Height || k is Dx || k is Dy || k is Scale
            || k is Rotation || k is Opacity || k is Fill || k is Stroke),
{
}

/// Whether a transform key can be animated.
pub fn is_animatable(key: &StyleKey) -> (r: bool)
    ensures
        r == animatable(*key),
{
    match key {
        StyleKey::X | StyleKey::Y | StyleKey::Width | StyleKey::Height | StyleKey::Dx | StyleKey::Dy
        | StyleKey::Scale | StyleKey::Rotation | StyleKey::Opacity | StyleKey::Fill | StyleKey::Stroke => true,
        _ => false,
    }
}

} // verus!
