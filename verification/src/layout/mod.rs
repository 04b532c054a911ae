//! Layout: the parts of the layout engine that reason about the document
//! rather than about coordinates, and reference validation.

use vstd::prelude::*;
use crate::ast::{
    ConnectionDecl, ConstraintExpr, Document, Identifier, PropertyRef, ShapeType, Span, Spanned,
    Statement,
};
use crate::strings::{chars_eq, chars_of, views};
use error::LayoutError;

pub mod routing;
pub mod solver;
pub mod error;
pub mod engine;
pub mod config;
pub mod collector;
pub mod keyframe;
pub mod lint;
pub mod text;
pub mod types;

verus! {

// ---------------------------------------------------------------------------
// Edit distance
// ---------------------------------------------------------------------------

/// Edit distance between the first `i` characters of `a` and the first `j`
/// characters of `b` (insertions, deletions and substitutions each cost 1).
pub open spec fn edit_distance_prefix(a: Seq<char>, b: Seq<char>, i: nat, j: nat) -> nat
    decreases i + j,
{
    if i == 0 {
        j
    } else if j == 0 {
        i
    } else {
        let cost: nat = if a[i - 1] == b[j - 1] { 0 } else { 1 };
        let del = edit_distance_prefix(a, b, (i - 1) as nat, j) + 1;
        let ins = edit_distance_prefix(a, b, i, (j - 1) as nat) + 1;
        let sub = edit_distance_prefix(a, b, (i - 1) as nat, (j - 1) as nat) + cost;
        let m = if del <= ins { del } else { ins };
        if m <= sub { m } else { sub }
    }
}

/// Levenshtein edit distance between two texts.
pub open spec fn edit_distance(a: Seq<char>, b: Seq<char>) -> nat {
    edit_distance_prefix(a, b, a.len(), b.len())
}

/// The edit distance of two prefixes is at most the longer prefix's length.
pub proof fn lemma_edit_distance_bound(a: Seq<char>, b: Seq<char>, i: nat, j: nat)
    ensures
        edit_distance_prefix(a, b, i, j) <= if i >= j { i } else { j },
    decreases i + j,
{
    if i > 0 && j > 0 {
        lemma_edit_distance_bound(a, b, (i - 1) as nat, (j - 1) as nat);
    }
}

/// Edit distance does not depend on which text comes first.
pub proof fn lemma_edit_distance_symmetric(a: Seq<char>, b: Seq<char>, i: nat, j: nat)
    ensures
        edit_distance_prefix(a, b, i, j) == edit_distance_prefix(b, a, j, i),
    decreases i + j,
{
    if i > 0 && j > 0 {
        lemma_edit_distance_symmetric(a, b, (i - 1) as nat, j);
        lemma_edit_distance_symmetric(a, b, i, (j - 1) as nat);
        lemma_edit_distance_symmetric(a, b, (i - 1) as nat, (j - 1) as nat);
    }
}

/// The edit distance of two prefixes is at least the difference of their
/// lengths.
pub proof fn lemma_edit_distance_lower_bound(a: Seq<char>, b: Seq<char>, i: nat, j: nat)
    ensures
        edit_distance_prefix(a, b, i, j) >= if i >= j { i - j } else { j - i },
    decreases i + j,
{
    if i > 0 && j > 0 {
        lemma_edit_distance_lower_bound(a, b, (i - 1) as nat, j);
        lemma_edit_distance_lower_bound(a, b, i, (j - 1) as nat);
        lemma_edit_distance_lower_bound(a, b, (i - 1) as nat, (j - 1) as nat);
    }
}

proof fn lemma_edit_distance_zero_prefix(a: Seq<char>, b: Seq<char>, i: nat)
    requires
        i <= a.len(),
        i <= b.len(),
        edit_distance_prefix(a, b, i, i) == 0,
    ensures
        a.take(i as int) == b.take(i as int),
    decreases i,
{
    if i > 0 {
        lemma_edit_distance_lower_bound(a, b, (i - 1) as nat, i);
        lemma_edit_distance_lower_bound(a, b, i, (i - 1) as nat);
        assert(a[i - 1] == b[i - 1]);
        lemma_edit_distance_zero_prefix(a, b, (i - 1) as nat);
        assert(a.take(i as int) =~= a.take(i - 1).push(a[i - 1]));
        assert(b.take(i as int) =~= b.take(i - 1).push(b[i - 1]));
    }
}

/// Two texts are at edit distance zero exactly when they are equal, and the
/// distance lies between the difference of their lengths and the longer
/// length.
pub proof fn lemma_edit_distance_zero_iff_equal(a: Seq<char>, b: Seq<char>)
    ensures
        (edit_distance(a, b) == 0) <==> (a == b),
        edit_distance(a, b) >= if a.len() >= b.len() { a.len() - b.len() } else { b.len() - a.len() },
        edit_distance(a, b) <= if a.len() >= b.len() { a.len() } else { b.len() },
{
    lemma_edit_distance_lower_bound(a, b, a.len(), b.len());
    lemma_edit_distance_bound(a, b, a.len(), b.len());
    if a == b {
        lemma_edit_distance_self(a, a.len());
    }
    if edit_distance(a, b) == 0 {
        lemma_edit_distance_zero_prefix(a, b, a.len());
        assert(a.take(a.len() as int) =~= a);
        assert(b.take(b.len() as int) =~= b);
    }
}

/// Every text is at distance zero from itself.
pub proof fn lemma_edit_distance_self(a: Seq<char>, i: nat)
    ensures
        edit_distance_prefix(a, a, i, i) == 0,
    decreases i,
{
    if i > 0 {
        lemma_edit_distance_self(a, (i - 1) as nat);
        lemma_edit_distance_bound(a, a, (i - 1) as nat, i);
        lemma_edit_distance_bound(a, a, i, (i - 1) as nat);
    }
}

/// Levenshtein edit distance between two strings, counted in characters.
pub fn levenshtein_distance(a: &str, b: &str) -> (r: usize)
    ensures
        r == edit_distance(a@, b@),
{
    let a_chars = chars_of(a);
    let b_chars = chars_of(b);
    let m = a_chars.len();
    let n = b_chars.len();
    if m == 0 {
        return n;
    }
    if n == 0 {
        return m;
    }
    // prev[k] = distance(a[..i], b[..k])
    let mut prev: Vec<usize> = Vec::new();
    prev.push(0);
    let mut j: usize = 0;
    while j < n
        invariant
            n == b_chars@.len(),
            j <= n,
            prev@.len() == j + 1,
            forall|k: int| 0 <= k <= j ==> prev@[k] == k,
        decreases n - j,
    {
        j = j + 1;
        prev.push(j);
    }
    assert forall|k: int| 0 <= k <= n implies #[trigger] prev@[k] == edit_distance_prefix(
        a_chars@,
        b_chars@,
        0,
        k as nat,
    ) by {}
    let mut i: usize = 0;
    while i < m
        invariant
            m == a_chars@.len(),
            n == b_chars@.len(),
            i <= m,
            prev@.len() == n + 1,
            forall|k: int|
                0 <= k <= n ==> #[trigger] prev@[k] == edit_distance_prefix(
                    a_chars@,
                    b_chars@,
                    i as nat,
                    k as nat,
                ),
        decreases m - i,
    {
        let mut cur: Vec<usize> = Vec::new();
        cur.push(i + 1);
        let mut j: usize = 0;
        while j < n
            invariant
                m == a_chars@.len(),
                n == b_chars@.len(),
                i < m,
                j <= n,
                prev@.len() == n + 1,
                cur@.len() == j + 1,
                forall|k: int|
                    0 <= k <= n ==> #[trigger] prev@[k] == edit_distance_prefix(
                        a_chars@,
                        b_chars@,
                        i as nat,
                        k as nat,
                    ),
                forall|k: int|
                    0 <= k <= j ==> #[trigger] cur@[k] == edit_distance_prefix(
                        a_chars@,
                        b_chars@,
                        (i + 1) as nat,
                        k as nat,
                    ),
            decreases n - j,
        {
            let cost: usize = if a_chars[i] == b_chars[j] { 0 } else { 1 };
            let del = prev[j + 1].saturating_add(1);
            let ins = cur[j].saturating_add(1);
            let sub = prev[j].saturating_add(cost);
            let mn = if del <= ins { del } else { ins };
            let v = if mn <= sub { mn } else { sub };
            proof {
                lemma_edit_distance_bound(a_chars@, b_chars@, (i + 1) as nat, (j + 1) as nat);
                assert(v == edit_distance_prefix(a_chars@, b_chars@, (i + 1) as nat, (j + 1) as nat));
            }
            cur.push(v);
            j = j + 1;
        }
        prev = cur;
        i = i + 1;
    }
    prev[n]
}

// ---------------------------------------------------------------------------
// Edit distance as the least number of edits
// ---------------------------------------------------------------------------

/// `b` is `a` with one character inserted, deleted or replaced.
pub open spec fn one_edit(a: Seq<char>, b: Seq<char>) -> bool {
    ||| exists|p: int, x: char| 0 <= p <= a.len() && b == a.insert(p, x)
    ||| exists|p: int| 0 <= p < a.len() && b == a.remove(p)
    ||| exists|p: int, x: char| 0 <= p < a.len() && b == a.update(p, x)
}

/// `a` can be turned into `b` with at most `k` single-character edits.
pub open spec fn within_edits(a: Seq<char>, b: Seq<char>, k: nat) -> bool
    decreases k,
{
    a == b || (k > 0 && exists|c: Seq<char>| #[trigger] one_edit(a, c) && within_edits(c, b, (k - 1) as nat))
}

proof fn lemma_ed_steps(a: Seq<char>, b: Seq<char>, i: nat, j: nat)
    ensures
        i > 0 ==> edit_distance_prefix(a, b, i, j) <= edit_distance_prefix(a, b, (i - 1) as nat, j) + 1,
        j > 0 ==> edit_distance_prefix(a, b, i, j) <= edit_distance_prefix(a, b, i, (j - 1) as nat) + 1,
{
}

proof fn lemma_ed_congruent(a: Seq<char>, a2: Seq<char>, b: Seq<char>, i: nat, j: nat)
    requires
        i <= a.len(),
        i <= a2.len(),
        a.take(i as int) == a2.take(i as int),
    ensures
        edit_distance_prefix(a, b, i, j) == edit_distance_prefix(a2, b, i, j),
    decreases i + j,
{
    if i > 0 && j > 0 {
        assert(a[i - 1] == a.take(i as int)[i - 1]);
        assert(a2[i - 1] == a2.take(i as int)[i - 1]);
        assert(a.take(i - 1) =~= a.take(i as int).take(i - 1));
        assert(a2.take(i - 1) =~= a2.take(i as int).take(i - 1));
        lemma_ed_congruent(a, a2, b, (i - 1) as nat, j);
        lemma_ed_congruent(a, a2, b, i, (j - 1) as nat);
        lemma_ed_congruent(a, a2, b, (i - 1) as nat, (j - 1) as nat);
    }
}

proof fn lemma_ed_next_row(a: Seq<char>, b: Seq<char>, i: nat, j: nat)
    ensures
        edit_distance_prefix(a, b, i, j) <= edit_distance_prefix(a, b, i + 1, j) + 1,
    decreases j,
{
    if j > 0 {
        lemma_ed_next_row(a, b, i, (j - 1) as nat);
        lemma_ed_steps(a, b, i, j);
    }
}

/// Removing the inserted character again costs at most one edit.
proof fn lemma_ed_after_insert(a: Seq<char>, c: Seq<char>, b: Seq<char>, p: int, x: char, i: nat, j: nat)
    requires
        0 <= p <= a.len(),
        c == a.insert(p, x),
        p <= i <= a.len(),
    ensures
        edit_distance_prefix(a, b, i, j) <= edit_distance_prefix(c, b, i + 1, j) + 1,
    decreases i + j,
{
    if i == p {
        assert(a.take(p) =~= c.take(p));
        lemma_ed_congruent(a, c, b, i, j);
        lemma_ed_next_row(c, b, i, j);
    } else if j > 0 {
        lemma_ed_after_insert(a, c, b, p, x, (i - 1) as nat, j);
        lemma_ed_after_insert(a, c, b, p, x, i, (j - 1) as nat);
        lemma_ed_after_insert(a, c, b, p, x, (i - 1) as nat, (j - 1) as nat);
        assert(c[i as int] == a[i - 1]);
        lemma_ed_steps(a, b, i, j);
    }
}

/// Putting a deleted character back costs at most one edit.
proof fn lemma_ed_after_remove(a: Seq<char>, c: Seq<char>, b: Seq<char>, p: int, i: nat, j: nat)
    requires
        0 <= p < a.len(),
        c == a.remove(p),
        p + 1 <= i <= a.len(),
    ensures
        edit_distance_prefix(a, b, i, j) <= edit_distance_prefix(c, b, (i - 1) as nat, j) + 1,
    decreases i + j,
{
    if i == p + 1 {
        assert(a.take(p) =~= c.take(p));
        lemma_ed_congruent(a, c, b, (i - 1) as nat, j);
        lemma_ed_steps(a, b, i, j);
    } else if j > 0 {
        lemma_ed_after_remove(a, c, b, p, (i - 1) as nat, j);
        lemma_ed_after_remove(a, c, b, p, i, (j - 1) as nat);
        lemma_ed_after_remove(a, c, b, p, (i - 1) as nat, (j - 1) as nat);
        assert(c[i - 2] == a[i - 1]);
        lemma_ed_steps(a, b, i, j);
    }
}

/// Undoing a replaced character costs at most one edit.
proof fn lemma_ed_after_update(a: Seq<char>, c: Seq<char>, b: Seq<char>, p: int, x: char, i: nat, j: nat)
    requires
        0 <= p < a.len(),
        c == a.update(p, x),
        p + 1 <= i <= a.len(),
    ensures
        edit_distance_prefix(a, b, i, j) <= edit_distance_prefix(c, b, i, j) + 1,
    decreases i + j,
{
    assert(a.take(p) =~= c.take(p));
    if j > 0 {
        if i == p + 1 {
            lemma_ed_congruent(a, c, b, p as nat, j);
            lemma_ed_congruent(a, c, b, p as nat, (j - 1) as nat);
            lemma_ed_after_update(a, c, b, p, x, i, (j - 1) as nat);
            lemma_ed_steps(a, b, i, j);
        } else {
            lemma_ed_after_update(a, c, b, p, x, (i - 1) as nat, j);
            lemma_ed_after_update(a, c, b, p, x, i, (j - 1) as nat);
            lemma_ed_after_update(a, c, b, p, x, (i - 1) as nat, (j - 1) as nat);
            assert(c[i - 1] == a[i - 1]);
            lemma_ed_steps(a, b, i, j);
        }
    }
}

proof fn lemma_ed_one_edit(a: Seq<char>, c: Seq<char>, b: Seq<char>)
    requires
        one_edit(a, c),
    ensures
        edit_distance(a, b) <= edit_distance(c, b) + 1,
{
    if exists|p: int, x: char| 0 <= p <= a.len() && c == a.insert(p, x) {
        let (p, x) = choose|p: int, x: char| 0 <= p <= a.len() && c == a.insert(p, x);
        lemma_ed_after_insert(a, c, b, p, x, a.len(), b.len());
    } else if exists|p: int| 0 <= p < a.len() && c == a.remove(p) {
        let p = choose|p: int| 0 <= p < a.len() && c == a.remove(p);
        lemma_ed_after_remove(a, c, b, p, a.len(), b.len());
    } else {
        let (p, x) = choose|p: int, x: char| 0 <= p < a.len() && c == a.update(p, x);
        lemma_ed_after_update(a, c, b, p, x, a.len(), b.len());
    }
}

proof fn lemma_within_bound(a: Seq<char>, b: Seq<char>, k: nat)
    requires
        within_edits(a, b, k),
    ensures
        edit_distance(a, b) <= k,
    decreases k,
{
    if a == b {
        lemma_edit_distance_self(a, a.len());
    } else {
        let c = choose|c: Seq<char>| #[trigger] one_edit(a, c) && within_edits(c, b, (k - 1) as nat);
        lemma_within_bound(c, b, (k - 1) as nat);
        lemma_ed_one_edit(a, c, b);
    }
}

proof fn lemma_within_more(a: Seq<char>, b: Seq<char>, k: nat, k2: nat)
    requires
        within_edits(a, b, k),
        k <= k2,
    ensures
        within_edits(a, b, k2),
    decreases k,
{
    if a != b {
        let c = choose|c: Seq<char>| #[trigger] one_edit(a, c) && within_edits(c, b, (k - 1) as nat);
        lemma_within_more(c, b, (k - 1) as nat, (k2 - 1) as nat);
        assert(one_edit(a, c) && within_edits(c, b, (k2 - 1) as nat));
    }
}

proof fn lemma_within_chain(a: Seq<char>, b: Seq<char>, c: Seq<char>, k1: nat, k2: nat)
    requires
        within_edits(a, b, k1),
        within_edits(b, c, k2),
    ensures
        within_edits(a, c, k1 + k2),
    decreases k1,
{
    if a == b {
        lemma_within_more(b, c, k2, k1 + k2);
    } else {
        let d = choose|d: Seq<char>| #[trigger] one_edit(a, d) && within_edits(d, b, (k1 - 1) as nat);
        lemma_within_chain(d, b, c, (k1 - 1) as nat, k2);
        assert(one_edit(a, d) && within_edits(d, c, (k1 + k2 - 1) as nat));
    }
}

proof fn lemma_within_step(a: Seq<char>, b: Seq<char>)
    requires
        one_edit(a, b),
    ensures
        within_edits(a, b, 1),
{
    assert(within_edits(b, b, 0));
    assert(one_edit(a, b) && within_edits(b, b, 0));
}

proof fn lemma_within_push(a: Seq<char>, b: Seq<char>, k: nat, ch: char)
    requires
        within_edits(a, b, k),
    ensures
        within_edits(a.push(ch), b.push(ch), k),
    decreases k,
{
    if a != b {
        let c = choose|c: Seq<char>| #[trigger] one_edit(a, c) && within_edits(c, b, (k - 1) as nat);
        lemma_within_push(c, b, (k - 1) as nat, ch);
        if exists|p: int, x: char| 0 <= p <= a.len() && c == a.insert(p, x) {
            let (p, x) = choose|p: int, x: char| 0 <= p <= a.len() && c == a.insert(p, x);
            assert(c.push(ch) =~= a.push(ch).insert(p, x));
        } else if exists|p: int| 0 <= p < a.len() && c == a.remove(p) {
            let p = choose|p: int| 0 <= p < a.len() && c == a.remove(p);
            assert(c.push(ch) =~= a.push(ch).remove(p));
        } else {
            let (p, x) = choose|p: int, x: char| 0 <= p < a.len() && c == a.update(p, x);
            assert(c.push(ch) =~= a.push(ch).update(p, x));
        }
        assert(one_edit(a.push(ch), c.push(ch)) && within_edits(c.push(ch), b.push(ch), (k - 1) as nat));
    }
}

proof fn lemma_within_prefixes(a: Seq<char>, b: Seq<char>, i: nat, j: nat)
    requires
        i <= a.len(),
        j <= b.len(),
    ensures
        within_edits(a.take(i as int), b.take(j as int), edit_distance_prefix(a, b, i, j)),
    decreases i + j,
{
    let ai = a.take(i as int);
    let bj = b.take(j as int);
    if i == 0 && j == 0 {
        assert(ai =~= bj);
    } else if i == 0 {
        lemma_within_prefixes(a, b, i, (j - 1) as nat);
        assert(bj =~= b.take(j - 1).insert(j - 1, b[j - 1]));
        lemma_within_step(b.take(j - 1), bj);
        lemma_within_chain(ai, b.take(j - 1), bj, (j - 1) as nat, 1);
    } else if j == 0 {
        lemma_within_prefixes(a, b, (i - 1) as nat, j);
        assert(a.take(i - 1) =~= ai.remove(i - 1));
        lemma_within_step(ai, a.take(i - 1));
        lemma_within_chain(ai, a.take(i - 1), bj, 1, (i - 1) as nat);
    } else {
        let d = edit_distance_prefix(a, b, i, j);
        let del = edit_distance_prefix(a, b, (i - 1) as nat, j) + 1;
        let ins = edit_distance_prefix(a, b, i, (j - 1) as nat) + 1;
        let cost: nat = if a[i - 1] == b[j - 1] { 0 } else { 1 };
        let sub = edit_distance_prefix(a, b, (i - 1) as nat, (j - 1) as nat) + cost;
        if d == del {
            lemma_within_prefixes(a, b, (i - 1) as nat, j);
            assert(a.take(i - 1) =~= ai.remove(i - 1));
            lemma_within_step(ai, a.take(i - 1));
            lemma_within_chain(ai, a.take(i - 1), bj, 1, (del - 1) as nat);
        } else if d == ins {
            lemma_within_prefixes(a, b, i, (j - 1) as nat);
            assert(bj =~= b.take(j - 1).insert(j - 1, b[j - 1]));
            lemma_within_step(b.take(j - 1), bj);
            lemma_within_chain(ai, b.take(j - 1), bj, (ins - 1) as nat, 1);
        } else {
            assert(d == sub);
            let s0 = edit_distance_prefix(a, b, (i - 1) as nat, (j - 1) as nat);
            lemma_within_prefixes(a, b, (i - 1) as nat, (j - 1) as nat);
            lemma_within_push(a.take(i - 1), b.take(j - 1), s0, a[i - 1]);
            assert(a.take(i - 1).push(a[i - 1]) =~= ai);
            let mid = b.take(j - 1).push(a[i - 1]);
            if cost == 0 {
                assert(mid =~= bj);
            } else {
                assert(bj =~= mid.update(j - 1, b[j - 1]));
                lemma_within_step(mid, bj);
                lemma_within_chain(ai, mid, bj, s0, 1);
            }
        }
    }
}

/// The edit distance is the least number of single-character insertions,
/// deletions and replacements that turn one text into the other: that many
/// edits suffice, and no fewer do.
pub proof fn lemma_edit_distance_least(a: Seq<char>, b: Seq<char>)
    ensures
        within_edits(a, b, edit_distance(a, b)),
        forall|k: nat| #[trigger] within_edits(a, b, k) ==> edit_distance(a, b) <= k,
{
    lemma_within_prefixes(a, b, a.len(), b.len());
    assert(a.take(a.len() as int) =~= a);
    assert(b.take(b.len() as int) =~= b);
    assert forall|k: nat| #[trigger] within_edits(a, b, k) implies edit_distance(a, b) <= k by {
        lemma_within_bound(a, b, k);
    }
}

// ---------------------------------------------------------------------------
// Suggestions
// ---------------------------------------------------------------------------

/// Index of the first entry whose distance exceeds `d`.
pub open spec fn first_farther(s: Seq<(Seq<char>, nat)>, d: nat) -> nat
    decreases s.len(),
{
    if s.len() == 0 {
        0
    } else if s[0].1 > d {
        0
    } else {
        1 + first_farther(s.subrange(1, s.len() as int), d)
    }
}

/// Inserts `x` after every entry at most as far as it (a stable insertion).
pub open spec fn insert_by_distance(s: Seq<(Seq<char>, nat)>, x: (Seq<char>, nat)) -> Seq<
    (Seq<char>, nat),
> {
    s.insert(first_farther(s, x.1) as int, x)
}

/// Stable sort of named distances by distance.
pub open spec fn sort_by_distance(s: Seq<(Seq<char>, nat)>) -> Seq<(Seq<char>, nat)>
    decreases s.len(),
{
    if s.len() == 0 {
        Seq::empty()
    } else {
        insert_by_distance(sort_by_distance(s.drop_last()), s.last())
    }
}

/// The names within `max` edits of `target` (but not equal to it), each once,
/// in order of first appearance, each paired with its distance.
pub open spec fn similar_candidates(defined: Seq<Seq<char>>, target: Seq<char>, max: nat) -> Seq<
    (Seq<char>, nat),
>
    decreases defined.len(),
{
    if defined.len() == 0 {
        Seq::empty()
    } else {
        let prev = similar_candidates(defined.drop_last(), target, max);
        let d = edit_distance(defined.last(), target);
        if defined.drop_last().contains(defined.last()) {
            prev
        } else if 0 < d <= max {
            prev.push((defined.last(), d))
        } else {
            prev
        }
    }
}

/// At most three suggestions for `target`: the nearest names first, ties in
/// the order the names are given.
pub open spec fn similar_names(defined: Seq<Seq<char>>, target: Seq<char>, max: nat) -> Seq<
    Seq<char>,
> {
    let sorted = sort_by_distance(similar_candidates(defined, target, max));
    let k = if sorted.len() < 3 { sorted.len() } else { 3 };
    sorted.take(k as int).map_values(|p: (Seq<char>, nat)| p.0)
}

/// Entries ordered by distance, nearest first.
pub open spec fn by_distance(s: Seq<(Seq<char>, nat)>) -> bool {
    forall|i: int, j: int| 0 <= i < j < s.len() ==> (#[trigger] s[i]).1 <= (#[trigger] s[j]).1
}

proof fn lemma_first_farther(s: Seq<(Seq<char>, nat)>, d: nat)
    ensures
        first_farther(s, d) <= s.len(),
        forall|k: int| 0 <= k < first_farther(s, d) ==> (#[trigger] s[k]).1 <= d,
        first_farther(s, d) < s.len() ==> s[first_farther(s, d) as int].1 > d,
    decreases s.len(),
{
    if s.len() > 0 && s[0].1 <= d {
        let t = s.subrange(1, s.len() as int);
        lemma_first_farther(t, d);
        assert forall|k: int| 0 <= k < first_farther(s, d) implies (#[trigger] s[k]).1 <= d by {
            if k > 0 {
                assert(s[k] == t[k - 1]);
            }
        }
        if first_farther(s, d) < s.len() {
            assert(s[first_farther(s, d) as int] == t[first_farther(t, d) as int]);
        }
    }
}

proof fn lemma_sort_by_distance(s: Seq<(Seq<char>, nat)>)
    ensures
        sort_by_distance(s).len() == s.len(),
        by_distance(sort_by_distance(s)),
        forall|i: int| 0 <= i < s.len() ==> s.contains(#[trigger] sort_by_distance(s)[i]),
    decreases s.len(),
{
    if s.len() > 0 {
        let p = sort_by_distance(s.drop_last());
        let x = s.last();
        lemma_sort_by_distance(s.drop_last());
        lemma_first_farther(p, x.1);
        let f = first_farther(p, x.1) as int;
        let t = p.insert(f, x);
        assert(t == sort_by_distance(s));
        assert forall|i: int, j: int| 0 <= i < j < t.len() implies (#[trigger] t[i]).1 <= (#[trigger] t[j]).1 by {
            if j < f {
                assert(t[i] == p[i] && t[j] == p[j]);
            } else if j == f {
                assert(t[i] == p[i]);
            } else if i < f {
                assert(t[i] == p[i] && t[j] == p[j - 1]);
            } else if i == f {
                assert(t[j] == p[j - 1]);
                assert(p[f].1 <= p[j - 1].1 || f == j - 1);
            } else {
                assert(t[i] == p[i - 1] && t[j] == p[j - 1]);
            }
        }
        assert forall|i: int| 0 <= i < s.len() implies s.contains(#[trigger] t[i]) by {
            if i < f {
                assert(s.drop_last().contains(p[i]));
                let k = choose|k: int| 0 <= k < s.drop_last().len() && s.drop_last()[k] == p[i];
                assert(s[k] == p[i]);
            } else if i == f {
                assert(s[s.len() - 1] == x);
            } else {
                assert(t[i] == p[i - 1]);
                assert(s.drop_last().contains(p[i - 1]));
                let k = choose|k: int| 0 <= k < s.drop_last().len() && s.drop_last()[k] == p[i - 1];
                assert(s[k] == p[i - 1]);
            }
        }
    }
}

proof fn lemma_similar_candidates(defined: Seq<Seq<char>>, target: Seq<char>, max: nat)
    ensures
        forall|i: int| 0 <= i < similar_candidates(defined, target, max).len() ==> {
            let c = #[trigger] similar_candidates(defined, target, max)[i];
            &&& defined.contains(c.0)
            &&& c.1 == edit_distance(c.0, target)
            &&& 0 < c.1 <= max
        },
    decreases defined.len(),
{
    if defined.len() > 0 {
        lemma_similar_candidates(defined.drop_last(), target, max);
        let prev = similar_candidates(defined.drop_last(), target, max);
        let c = similar_candidates(defined, target, max);
        assert forall|i: int| 0 <= i < c.len() implies {
            let e = #[trigger] c[i];
            &&& defined.contains(e.0)
            &&& e.1 == edit_distance(e.0, target)
            &&& 0 < e.1 <= max
        } by {
            if i < prev.len() {
                assert(c[i] == prev[i]);
                let k = choose|k: int| 0 <= k < defined.drop_last().len() && defined.drop_last()[k] == prev[i].0;
                assert(defined[k] == prev[i].0);
            } else {
                assert(defined[defined.len() - 1] == c[i].0);
            }
        }
    }
}

/// No two entries carry the same name.
pub open spec fn distinct_names(s: Seq<(Seq<char>, nat)>) -> bool {
    forall|i: int, j: int| 0 <= i < j < s.len() ==> (#[trigger] s[i]).0 != (#[trigger] s[j]).0
}

proof fn lemma_candidates_distinct(defined: Seq<Seq<char>>, target: Seq<char>, max: nat)
    ensures
        distinct_names(similar_candidates(defined, target, max)),
    decreases defined.len(),
{
    if defined.len() > 0 {
        let p = defined.drop_last();
        lemma_candidates_distinct(p, target, max);
        lemma_similar_candidates(p, target, max);
        let prev = similar_candidates(p, target, max);
        let c = similar_candidates(defined, target, max);
        if !p.contains(defined.last()) && c != prev {
            assert forall|i: int, j: int| 0 <= i < j < c.len() implies (#[trigger] c[i]).0 != (#[trigger] c[j]).0 by {
                assert(c[i] == prev[i]);
                if j < prev.len() {
                    assert(c[j] == prev[j]);
                } else {
                    assert(p.contains(prev[i].0));
                }
            }
        }
    }
}

proof fn lemma_sort_distinct(s: Seq<(Seq<char>, nat)>)
    requires
        distinct_names(s),
    ensures
        distinct_names(sort_by_distance(s)),
    decreases s.len(),
{
    if s.len() > 0 {
        let q = s.drop_last();
        assert(distinct_names(q)) by {
            assert forall|i: int, j: int| 0 <= i < j < q.len() implies (#[trigger] q[i]).0 != (#[trigger] q[j]).0 by {
                assert(q[i] == s[i] && q[j] == s[j]);
            }
        }
        lemma_sort_distinct(q);
        lemma_sort_by_distance(q);
        let p = sort_by_distance(q);
        let x = s.last();
        let f = first_farther(p, x.1) as int;
        lemma_first_farther(p, x.1);
        let t = p.insert(f, x);
        assert forall|k: int| 0 <= k < p.len() implies (#[trigger] p[k]).0 != x.0 by {
            assert(q.contains(p[k]));
            let m = choose|m: int| 0 <= m < q.len() && q[m] == p[k];
            assert(s[m] == p[k] && s[s.len() - 1] == x);
        }
        assert forall|i: int, j: int| 0 <= i < j < t.len() implies (#[trigger] t[i]).0 != (#[trigger] t[j]).0 by {
            if j < f {
                assert(t[i] == p[i] && t[j] == p[j]);
            } else if j == f {
                assert(t[i] == p[i]);
            } else if i < f {
                assert(t[i] == p[i] && t[j] == p[j - 1]);
            } else if i == f {
                assert(t[j] == p[j - 1]);
            } else {
                assert(t[i] == p[i - 1] && t[j] == p[j - 1]);
            }
        }
    }
}

/// Suggestions are at most three distinct defined names, each within `max`
/// edits of the target and never the target itself, nearest first.
pub proof fn lemma_similar_names(defined: Seq<Seq<char>>, target: Seq<char>, max: nat)
    ensures
        similar_names(defined, target, max).len() <= 3,
        similar_names(defined, target, max).no_duplicates(),
        forall|i: int| 0 <= i < similar_names(defined, target, max).len() ==> {
            let n = #[trigger] similar_names(defined, target, max)[i];
            &&& defined.contains(n)
            &&& 0 < edit_distance(n, target) <= max
            &&& n != target
        },
        forall|i: int, j: int| 0 <= i < j < similar_names(defined, target, max).len() ==> edit_distance(
            #[trigger] similar_names(defined, target, max)[i],
            target,
        ) <= edit_distance(#[trigger] similar_names(defined, target, max)[j], target),
{
    let c = similar_candidates(defined, target, max);
    let sorted = sort_by_distance(c);
    let r = similar_names(defined, target, max);
    lemma_similar_candidates(defined, target, max);
    lemma_sort_by_distance(c);
    lemma_edit_distance_self(target, target.len());
    lemma_candidates_distinct(defined, target, max);
    lemma_sort_distinct(c);
    assert forall|i: int, j: int| 0 <= i < r.len() && 0 <= j < r.len() && i != j implies r[i] != r[j] by {
        assert(r[i] == sorted[i].0 && r[j] == sorted[j].0);
        if i < j {
            assert(sorted[i].0 != sorted[j].0);
        } else {
            assert(sorted[j].0 != sorted[i].0);
        }
    }
    assert forall|i: int| 0 <= i < r.len() implies {
        let n = #[trigger] r[i];
        &&& defined.contains(n)
        &&& 0 < edit_distance(n, target) <= max
        &&& n != target
    } by {
        assert(r[i] == sorted[i].0);
        assert(c.contains(sorted[i]));
        let k = choose|k: int| 0 <= k < c.len() && c[k] == sorted[i];
        assert(c[k] == sorted[i]);
    }
    assert forall|i: int, j: int| 0 <= i < j < r.len() implies edit_distance(#[trigger] r[i], target) <= edit_distance(
        #[trigger] r[j],
        target,
    ) by {
        assert(r[i] == sorted[i].0 && r[j] == sorted[j].0);
        assert(c.contains(sorted[i]));
        assert(c.contains(sorted[j]));
        let a = choose|k: int| 0 <= k < c.len() && c[k] == sorted[i];
        let b = choose|k: int| 0 <= k < c.len() && c[k] == sorted[j];
        assert(c[a] == sorted[i] && c[b] == sorted[j]);
    }
}

/// Distances of a list of named distances.
pub open spec fn pair_views(v: Seq<(String, usize)>) -> Seq<(Seq<char>, nat)> {
    v.map_values(|p: (String, usize)| (p.0@, p.1 as nat))
}

/// Find similar identifiers within a maximum edit distance: at most three,
/// nearest first, each name once, never the target itself.
pub fn find_similar(defined: &[String], target: &str, max_distance: usize) -> (r: Vec<String>)
    ensures
        views(r@) == similar_names(views(defined@), target@, max_distance as nat),
{
    let mut sorted: Vec<(String, usize)> = Vec::new();
    let mut seen: Vec<String> = Vec::new();
    let mut i: usize = 0;
    while i < defined.len()
        invariant
            i <= defined@.len(),
            views(seen@) == views(defined@.subrange(0, i as int)),
            pair_views(sorted@) == sort_by_distance(
                similar_candidates(views(defined@.subrange(0, i as int)), target@, max_distance as nat),
            ),
        decreases defined@.len() - i,
    {
        let ghost before = views(defined@.subrange(0, i as int));
        let ghost after = views(defined@.subrange(0, i + 1));
        assert(after.drop_last() =~= before);
        assert(after.last() == defined@[i as int]@);
        let d = levenshtein_distance(defined[i].as_str(), target);
        let ghost prev_c = similar_candidates(before, target@, max_distance as nat);
        let repeated = contains_text(seen.as_slice(), defined[i].as_str());
        if repeated {
            assert(similar_candidates(after, target@, max_distance as nat) == prev_c);
        } else if d <= max_distance && d > 0 {
            let ghost sv = pair_views(sorted@);
            let ghost x = (defined@[i as int]@, d as nat);
            assert(similar_candidates(after, target@, max_distance as nat) == prev_c.push(x));
            assert(prev_c.push(x).drop_last() =~= prev_c);
            let mut k: usize = 0;
            assert(sv.subrange(0, sv.len() as int) =~= sv);
            while k < sorted.len() && sorted[k].1 <= d
                invariant
                    k <= sorted@.len(),
                    sv == pair_views(sorted@),
                    first_farther(sv, d as nat) == k + first_farther(
                        sv.subrange(k as int, sv.len() as int),
                        d as nat,
                    ),
                decreases sorted@.len() - k,
            {
                assert(sv.subrange(k as int, sv.len() as int).subrange(1, sv.len() - k) =~= sv.subrange(
                    k + 1,
                    sv.len() as int,
                ));
                assert(sv[k as int].1 == sorted@[k as int].1);
                k = k + 1;
            }
            proof {
                if k < sorted@.len() {
                    assert(sv[k as int].1 == sorted@[k as int].1);
                    assert(sv.subrange(k as int, sv.len() as int)[0] == sv[k as int]);
                }
            }
            assert(first_farther(sv, d as nat) == k);
            sorted.insert(k, (defined[i].clone(), d));
            assert(pair_views(sorted@) =~= sv.insert(k as int, x));
        } else {
            assert(similar_candidates(after, target@, max_distance as nat) == prev_c);
        }
        let ghost sb = seen@;
        seen.push(defined[i].clone());
        assert(views(seen@) =~= views(sb).push(defined@[i as int]@));
        i = i + 1;
        assert(views(seen@) =~= views(defined@.subrange(0, i as int)));
    }
    assert(defined@.subrange(0, defined@.len() as int) =~= defined@);
    let ghost sv = pair_views(sorted@);
    let take = if sorted.len() < 3 { sorted.len() } else { 3 };
    let mut r: Vec<String> = Vec::new();
    let mut j: usize = 0;
    while j < take
        invariant
            take <= sorted@.len(),
            j <= take,
            sv == pair_views(sorted@),
            views(r@) == sv.take(j as int).map_values(|p: (Seq<char>, nat)| p.0),
        decreases take - j,
    {
        let ghost rv = views(r@);
        assert(sv[j as int].0 == sorted@[j as int].0@);
        assert(sv.take(j + 1).map_values(|p: (Seq<char>, nat)| p.0) =~= sv.take(j as int).map_values(
            |p: (Seq<char>, nat)| p.0,
        ).push(sv[j as int].0));
        r.push(sorted[j].0.clone());
        assert(views(r@) =~= rv.push(sorted@[j as int].0@));
        j = j + 1;
        assert(views(r@) =~= sv.take(j as int).map_values(|p: (Seq<char>, nat)| p.0));
    }
    r
}

// ---------------------------------------------------------------------------
// Identifiers a document defines
// ---------------------------------------------------------------------------

/// The view of an optional name.
pub open spec fn opt_name(n: Option<Spanned<Identifier>>) -> Seq<Seq<char>> {
    match n {
        Some(x) => seq![x.node.0@],
        None => Seq::empty(),
    }
}

/// Identifiers a statement defines, in document order (repeats kept).
pub open spec fn stmt_defined_ids(s: Statement) -> Seq<Seq<char>>
    decreases s,
{
    match s {
        Statement::Shape(sh) => opt_name(sh.name) + match sh.shape_type.node {
            ShapeType::Path(p) => opt_name(p.name),
            _ => Seq::empty(),
        },
        Statement::Layout(l) => opt_name(l.name) + stmts_defined_ids(l.children@),
        Statement::Group(g) => opt_name(g.name) + stmts_defined_ids(g.children@),
        Statement::Label(inner) => stmt_defined_ids(*inner),
        Statement::TemplateDecl(t) => seq![t.name.node.0@],
        Statement::TemplateInstance(i) => seq![i.instance_name.node.0@],
        _ => Seq::empty(),
    }
}

/// Identifiers a list of statements defines, in document order.
pub open spec fn stmts_defined_ids(ss: Seq<Spanned<Statement>>) -> Seq<Seq<char>>
    decreases ss,
{
    if ss.len() == 0 {
        Seq::empty()
    } else {
        stmts_defined_ids(ss.subrange(0, ss.len() - 1)) + stmt_defined_ids(ss[ss.len() - 1].node)
    }
}

/// A list with later repeats removed.
pub open spec fn dedup(s: Seq<Seq<char>>) -> Seq<Seq<char>>
    decreases s.len(),
{
    if s.len() == 0 {
        Seq::empty()
    } else {
        let d = dedup(s.drop_last());
        if d.contains(s.last()) {
            d
        } else {
            d.push(s.last())
        }
    }
}

/// The identifiers a document defines, each once, in order of first definition.
pub open spec fn defined_identifiers(doc: Document) -> Seq<Seq<char>> {
    dedup(stmts_defined_ids(doc.statements@))
}

proof fn lemma_dedup(s: Seq<Seq<char>>)
    ensures
        dedup(s).no_duplicates(),
        forall|x: Seq<char>| #[trigger] dedup(s).contains(x) <==> s.contains(x),
    decreases s.len(),
{
    if s.len() > 0 {
        let p = s.drop_last();
        lemma_dedup(p);
        let d = dedup(p);
        assert forall|x: Seq<char>| #[trigger] dedup(s).contains(x) <==> s.contains(x) by {
            if s.contains(x) {
                let k = choose|k: int| 0 <= k < s.len() && s[k] == x;
                if k < s.len() - 1 {
                    assert(p[k] == x);
                    assert(p.contains(x));
                    assert(d.contains(x));
                    if !d.contains(s.last()) {
                        let q = choose|q: int| 0 <= q < d.len() && d[q] == x;
                        assert(d.push(s.last())[q] == x);
                    }
                } else if !d.contains(s.last()) {
                    assert(d.push(s.last())[d.len() as int] == x);
                }
            }
            if dedup(s).contains(x) {
                let q = choose|q: int| 0 <= q < dedup(s).len() && dedup(s)[q] == x;
                if d.contains(x) {
                    let r = choose|r: int| 0 <= r < p.len() && p[r] == x;
                    assert(s[r] == x);
                } else {
                    assert(!d.contains(s.last()));
                    assert(q == d.len());
                    assert(s[s.len() - 1] == x);
                }
            }
        }
    }
}

/// A document's defined identifiers are listed once each, and they are
/// exactly the names its statements define.
pub proof fn lemma_defined_identifiers_once(doc: Document)
    ensures
        defined_identifiers(doc).no_duplicates(),
        forall|x: Seq<char>| #[trigger] defined_identifiers(doc).contains(x) <==> stmts_defined_ids(doc.statements@).contains(x),
{
    lemma_dedup(stmts_defined_ids(doc.statements@));
}

/// Whether `v` holds a string with the text of `s`.
pub fn contains_text(v: &[String], s: &str) -> (r: bool)
    ensures
        r == views(v@).contains(s@),
{
    let sc = chars_of(s);
    let mut i: usize = 0;
    while i < v.len()
        invariant
            i <= v@.len(),
            sc@ == s@,
            forall|k: int| 0 <= k < i ==> v@[k]@ != s@,
        decreases v@.len() - i,
    {
        let vc = chars_of(v[i].as_str());
        if chars_eq(&vc, &sc) {
            assert(views(v@)[i as int] == s@);
            return true;
        }
        i = i + 1;
    }
    assert(!views(v@).contains(s@));
    false
}

/// Adds `name` to the set `ids` unless it is already there.
pub(crate) fn insert_id(ids: &mut Vec<String>, name: &String)
    ensures
        views(final(ids)@) == if views(old(ids)@).contains(name@) {
            views(old(ids)@)
        } else {
            views(old(ids)@).push(name@)
        },
{
    if !contains_text(ids.as_slice(), name.as_str()) {
        ids.push(name.clone());
        assert(views(ids@) =~= views(old(ids)@).push(name@));
    }
}

/// Adds a list of identifiers to a set, one at a time.
pub open spec fn dedup_onto(d: Seq<Seq<char>>, s: Seq<Seq<char>>) -> Seq<Seq<char>>
    decreases s.len(),
{
    if s.len() == 0 {
        d
    } else {
        let prev = dedup_onto(d, s.drop_last());
        if prev.contains(s.last()) {
            prev
        } else {
            prev.push(s.last())
        }
    }
}

proof fn lemma_dedup_onto_concat(d: Seq<Seq<char>>, a: Seq<Seq<char>>, b: Seq<Seq<char>>)
    ensures
        dedup_onto(d, a + b) == dedup_onto(dedup_onto(d, a), b),
    decreases b.len(),
{
    if b.len() == 0 {
        assert(a + b =~= a);
    } else {
        assert((a + b).drop_last() =~= a + b.drop_last());
        assert((a + b).last() == b.last());
        lemma_dedup_onto_concat(d, a, b.drop_last());
    }
}

proof fn lemma_dedup_is_onto_empty(s: Seq<Seq<char>>)
    ensures
        dedup(s) == dedup_onto(Seq::empty(), s),
    decreases s.len(),
{
    if s.len() > 0 {
        lemma_dedup_is_onto_empty(s.drop_last());
    }
}

fn insert_opt_name(ids: &mut Vec<String>, n: &Option<Spanned<Identifier>>)
    ensures
        views(final(ids)@) == dedup_onto(views(old(ids)@), opt_name(*n)),
{
    match n {
        Some(x) => {
            assert(opt_name(*n).drop_last() =~= Seq::<Seq<char>>::empty());
            assert(opt_name(*n).last() == x.node.0@);
            assert(dedup_onto(views(old(ids)@), Seq::<Seq<char>>::empty()) == views(old(ids)@));
            insert_id(ids, &x.node.0);
        },
        None => {},
    }
}

fn shape_path_name(s: &crate::ast::ShapeDecl) -> (r: Option<&Spanned<Identifier>>)
    ensures
        opt_name(match r {
            Some(x) => Some(*x),
            None => None,
        }) == match s.shape_type.node {
            ShapeType::Path(p) => opt_name(p.name),
            _ => Seq::empty(),
        },
{
    match &s.shape_type.node {
        ShapeType::Path(p) => match &p.name {
            Some(n) => Some(n),
            None => None,
        },
        _ => None,
    }
}

fn collect_shape_ids(s: &crate::ast::ShapeDecl, ids: &mut Vec<String>)
    ensures
        views(final(ids)@) == dedup_onto(views(old(ids)@), stmt_defined_ids(Statement::Shape(*s))),
{
    let ghost start = views(old(ids)@);
    insert_opt_name(ids, &s.name);
    let pn = shape_path_name(s);
    let ghost pseq = opt_name(match pn { Some(x) => Some(*x), None => None });
    match pn {
        Some(n) => {
            assert(pseq =~= seq![n.node.0@]);
            assert(pseq.drop_last() =~= Seq::<Seq<char>>::empty());
            assert(pseq.last() == n.node.0@);
            assert(dedup_onto(views(ids@), Seq::<Seq<char>>::empty()) == views(ids@));
            insert_id(ids, &n.node.0);
        },
        None => {
            assert(pseq =~= Seq::<Seq<char>>::empty());
        },
    }
    assert(views(ids@) == dedup_onto(dedup_onto(start, opt_name(s.name)), pseq));
    proof {
        lemma_dedup_onto_concat(start, opt_name(s.name), pseq);
    }
}

fn collect_ids_from_statement(stmt: &Statement, ids: &mut Vec<String>)
    ensures
        views(final(ids)@) == dedup_onto(views(old(ids)@), stmt_defined_ids(*stmt)),
    decreases stmt, 1nat,
{
    match stmt {
        Statement::Shape(s) => {
            collect_shape_ids(s, ids);
            assert(views(ids@) == dedup_onto(views(old(ids)@), stmt_defined_ids(*stmt)));
        },
        Statement::Layout(l) => {
            let ghost start = views(ids@);
            insert_opt_name(ids, &l.name);
            collect_ids_from_statements(&l.children, ids);
            proof {
                lemma_dedup_onto_concat(start, opt_name(l.name), stmts_defined_ids(l.children@));
            }
            assert(views(ids@) == dedup_onto(views(old(ids)@), stmt_defined_ids(*stmt)));
        },
        Statement::Group(g) => {
            let ghost start = views(ids@);
            insert_opt_name(ids, &g.name);
            collect_ids_from_statements(&g.children, ids);
            proof {
                lemma_dedup_onto_concat(start, opt_name(g.name), stmts_defined_ids(g.children@));
            }
            assert(views(ids@) == dedup_onto(views(old(ids)@), stmt_defined_ids(*stmt)));
        },
        Statement::Label(inner) => {
            collect_ids_from_statement(inner, ids);
            assert(views(ids@) == dedup_onto(views(old(ids)@), stmt_defined_ids(*stmt)));
        },
        Statement::TemplateDecl(t) => {
            assert(seq![t.name.node.0@].drop_last() =~= Seq::<Seq<char>>::empty());
            assert(dedup_onto(views(ids@), Seq::<Seq<char>>::empty()) == views(ids@));
            insert_id(ids, &t.name.node.0);
            assert(views(ids@) == dedup_onto(views(old(ids)@), stmt_defined_ids(*stmt)));

        },
        Statement::TemplateInstance(inst) => {
            assert(seq![inst.instance_name.node.0@].drop_last() =~= Seq::<Seq<char>>::empty());
            assert(dedup_onto(views(ids@), Seq::<Seq<char>>::empty()) == views(ids@));
            insert_id(ids, &inst.instance_name.node.0);
            assert(views(ids@) == dedup_onto(views(old(ids)@), stmt_defined_ids(*stmt)));

        },
        _ => {
            assert(stmt_defined_ids(*stmt) =~= Seq::<Seq<char>>::empty());
        },
    }
}

fn collect_ids_from_statements(stmts: &Vec<Spanned<Statement>>, ids: &mut Vec<String>)
    ensures
        views(final(ids)@) == dedup_onto(views(old(ids)@), stmts_defined_ids(stmts@)),
    decreases stmts, 0nat,
{
    let mut i: usize = 0;
    while i < stmts.len()
        invariant
            i <= stmts@.len(),
            views(ids@) == dedup_onto(
                views(old(ids)@),
                stmts_defined_ids(stmts@.subrange(0, i as int)),
            ),
        decreases stmts@.len() - i,
    {
        let ghost before = views(ids@);
        assert(decreases_to!(stmts => stmts@[i as int].node));
        collect_ids_from_statement(&stmts[i].node, ids);
        proof {
            let sub = stmts@.subrange(0, i + 1);
            assert(sub.subrange(0, sub.len() - 1) =~= stmts@.subrange(0, i as int));
            assert(sub[sub.len() - 1] == stmts@[i as int]);
            lemma_dedup_onto_concat(
                views(old(ids)@),
                stmts_defined_ids(stmts@.subrange(0, i as int)),
                stmt_defined_ids(stmts@[i as int].node),
            );
        }
        i = i + 1;
    }
    assert(stmts@.subrange(0, stmts@.len() as int) =~= stmts@);
}

/// The identifiers a document defines, each once, in order of first definition.
pub fn collect_defined_identifiers(doc: &Document) -> (r: Vec<String>)
    ensures
        views(r@) == defined_identifiers(*doc),
{
    let mut ids: Vec<String> = Vec::new();
    collect_ids_from_statements(&doc.statements, &mut ids);
    proof {
        assert(views(Seq::<String>::empty()) =~= Seq::<Seq<char>>::empty());
        lemma_dedup_is_onto_empty(stmts_defined_ids(doc.statements@));
    }
    ids
}

// ---------------------------------------------------------------------------
// References a document makes
// ---------------------------------------------------------------------------

/// A reference: the name used and where it was written.
pub open spec fn id_ref(i: Spanned<Identifier>) -> (Seq<char>, Span) {
    (i.node.0@, i.span)
}

/// The element a property reference designates (the leaf of its path).
pub open spec fn prop_ref(p: PropertyRef) -> (Seq<char>, Span) {
    (p.element.node.leaf_text(), p.element.span)
}

/// References of a list of identifiers.
pub open spec fn ids_refs(ids: Seq<Spanned<Identifier>>) -> Seq<(Seq<char>, Span)> {
    ids.map_values(|i: Spanned<Identifier>| id_ref(i))
}

/// References a `constrain` expression makes, in the order they are checked.
pub open spec fn expr_refs(e: ConstraintExpr) -> Seq<(Seq<char>, Span)> {
    match e {
        ConstraintExpr::Equal { left, right } => seq![prop_ref(left), prop_ref(right)],
        ConstraintExpr::EqualWithOffset { left, right, .. } => seq![prop_ref(left), prop_ref(right)],
        ConstraintExpr::Constant { left, .. } => seq![prop_ref(left)],
        ConstraintExpr::GreaterOrEqual { left, .. } => seq![prop_ref(left)],
        ConstraintExpr::LessOrEqual { left, .. } => seq![prop_ref(left)],
        ConstraintExpr::Midpoint { target, a, b } => seq![prop_ref(target), id_ref(a), id_ref(b)],
        ConstraintExpr::Contains { container, elements, .. } => seq![id_ref(container)] + ids_refs(
            elements@,
        ),
    }
}

/// References of a list of connections: each one's source, then its target.
pub open spec fn conns_refs(cs: Seq<ConnectionDecl>) -> Seq<(Seq<char>, Span)>
    decreases cs.len(),
{
    if cs.len() == 0 {
        Seq::empty()
    } else {
        conns_refs(cs.drop_last()) + seq![id_ref(cs.last().from.element), id_ref(cs.last().to.element)]
    }
}

/// The reference of an optional anchor.
pub open spec fn anchor_refs(a: Option<Spanned<Identifier>>) -> Seq<(Seq<char>, Span)> {
    match a {
        Some(x) => seq![id_ref(x)],
        None => Seq::empty(),
    }
}

/// References a statement makes, in the order they are checked.
pub open spec fn stmt_refs(s: Statement) -> Seq<(Seq<char>, Span)>
    decreases s,
{
    match s {
        Statement::Connection(cs) => conns_refs(cs@),
        Statement::Constraint(c) => seq![id_ref(c.subject)] + anchor_refs(c.anchor),
        Statement::Layout(l) => stmts_refs(l.children@),
        Statement::Group(g) => stmts_refs(g.children@),
        Statement::Label(inner) => stmt_refs(*inner),
        Statement::Constrain(c) => expr_refs(c.expr),
        Statement::TemplateInstance(i) => seq![id_ref(i.template_name)],
        _ => Seq::empty(),
    }
}

/// References a list of statements makes, in order.
pub open spec fn stmts_refs(ss: Seq<Spanned<Statement>>) -> Seq<(Seq<char>, Span)>
    decreases ss,
{
    if ss.len() == 0 {
        Seq::empty()
    } else {
        stmts_refs(ss.subrange(0, ss.len() - 1)) + stmt_refs(ss[ss.len() - 1].node)
    }
}

/// The first reference to a name that is not defined.
pub open spec fn first_undefined(refs: Seq<(Seq<char>, Span)>, defined: Seq<Seq<char>>) -> Option<
    (Seq<char>, Span),
>
    decreases refs.len(),
{
    if refs.len() == 0 {
        None
    } else if !defined.contains(refs[0].0) {
        Some(refs[0])
    } else {
        first_undefined(refs.subrange(1, refs.len() as int), defined)
    }
}

/// The first undefined reference of `a + b` is that of `a`, else that of `b`.
pub proof fn lemma_first_undefined_concat(
    a: Seq<(Seq<char>, Span)>,
    b: Seq<(Seq<char>, Span)>,
    defined: Seq<Seq<char>>,
)
    ensures
        first_undefined(a + b, defined) == match first_undefined(a, defined) {
            Some(x) => Some(x),
            None => first_undefined(b, defined),
        },
    decreases a.len(),
{
    if a.len() == 0 {
        assert(a + b =~= b);
    } else {
        assert((a + b)[0] == a[0]);
        assert((a + b).subrange(1, (a + b).len() as int) =~= a.subrange(1, a.len() as int) + b);
        lemma_first_undefined_concat(a.subrange(1, a.len() as int), b, defined);
    }
}

/// `e` is the undefined-identifier error for `name` at `span`, with the
/// suggestions drawn from `defined`.
pub open spec fn is_undefined_error(e: LayoutError, name: Seq<char>, span: Span, defined: Seq<Seq<char>>) -> bool {
    e matches LayoutError::UndefinedIdentifier { name: n, span: sp, suggestions: sg } && n@ == name
        && sp == span && views(sg@) == similar_names(defined, name, 2)
}

/// What checking a list of references against `defined` yields: success when
/// every reference is defined, else the error for the first that is not.
pub open spec fn refs_check(r: Result<(), LayoutError>, refs: Seq<(Seq<char>, Span)>, defined: Seq<Seq<char>>) -> bool {
    match first_undefined(refs, defined) {
        None => r is Ok,
        Some(x) => r matches Err(e) && is_undefined_error(e, x.0, x.1, defined),
    }
}

/// Checks one reference.
fn check_ref(name: &String, span: Span, defined: &Vec<String>) -> (r: Result<(), LayoutError>)
    ensures
        refs_check(r, seq![(name@, span)], views(defined@)),
{
    assert(seq![(name@, span)].subrange(1, 1) =~= Seq::<(Seq<char>, Span)>::empty());
    assert(first_undefined(Seq::<(Seq<char>, Span)>::empty(), views(defined@)) is None);
    if !contains_text(defined.as_slice(), name.as_str()) {
        return Err(LayoutError::UndefinedIdentifier {
            name: name.clone(),
            span,
            suggestions: find_similar(defined.as_slice(), name.as_str(), 2),
        });
    }
    Ok(())
}

fn validate_prop_ref(p: &PropertyRef, defined: &Vec<String>) -> (r: Result<(), LayoutError>)
    ensures
        refs_check(r, seq![prop_ref(*p)], views(defined@)),
{
    let leaf = p.element.node.leaf_string();
    check_ref(&leaf, p.element.span, defined)
}

fn validate_ident(i: &Spanned<Identifier>, defined: &Vec<String>) -> (r: Result<(), LayoutError>)
    ensures
        refs_check(r, seq![id_ref(*i)], views(defined@)),
{
    check_ref(&i.node.0, i.span, defined)
}

/// Validate element references within a constraint expression.
fn validate_constraint_expr_refs(expr: &ConstraintExpr, defined: &Vec<String>) -> (r: Result<
    (),
    LayoutError,
>)
    ensures
        refs_check(r, expr_refs(*expr), views(defined@)),
{
    let ghost d = views(defined@);
    match expr {
        ConstraintExpr::Equal { left, right } | ConstraintExpr::EqualWithOffset { left, right, .. } => {
            let r1 = validate_prop_ref(left, defined);
            proof {
                lemma_first_undefined_concat(seq![prop_ref(*left)], seq![prop_ref(*right)], d);
                assert(seq![prop_ref(*left)] + seq![prop_ref(*right)] =~= expr_refs(*expr));
            }
            r1?;
            validate_prop_ref(right, defined)
        },
        ConstraintExpr::Constant { left, .. }
        | ConstraintExpr::GreaterOrEqual { left, .. }
        | ConstraintExpr::LessOrEqual { left, .. } => validate_prop_ref(left, defined),
        ConstraintExpr::Midpoint { target, a, b } => {
            let ghost s1 = seq![prop_ref(*target)];
            let ghost s2 = seq![id_ref(*a)];
            let ghost s3 = seq![id_ref(*b)];
            proof {
                lemma_first_undefined_concat(s1, s2 + s3, d);
                lemma_first_undefined_concat(s2, s3, d);
                assert(s1 + (s2 + s3) =~= expr_refs(*expr));
            }
            validate_prop_ref(target, defined)?;
            validate_ident(a, defined)?;
            validate_ident(b, defined)
        },
        ConstraintExpr::Contains { container, elements, .. } => {
            let ghost s1 = seq![id_ref(*container)];
            proof {
                lemma_first_undefined_concat(s1, ids_refs(elements@), d);
            }
            validate_ident(container, defined)?;
            assert(first_undefined(expr_refs(*expr), d) == first_undefined(ids_refs(elements@), d));
            let mut i: usize = 0;
            while i < elements.len()
                invariant
                    i <= elements@.len(),
                    d == views(defined@),
                    first_undefined(ids_refs(elements@.subrange(0, i as int)), d) is None,
                    first_undefined(expr_refs(*expr), d) == first_undefined(ids_refs(elements@), d),
                decreases elements@.len() - i,
            {
                let ghost pre = ids_refs(elements@.subrange(0, i as int));
                let r = validate_ident(&elements[i], defined);
                proof {
                    lemma_first_undefined_concat(pre, seq![id_ref(elements@[i as int])], d);
                    assert(ids_refs(elements@.subrange(0, i + 1)) =~= pre + seq![id_ref(elements@[i as int])]);
                    lemma_first_undefined_concat(
                        ids_refs(elements@.subrange(0, i + 1)),
                        ids_refs(elements@.subrange(i + 1, elements@.len() as int)),
                        d,
                    );
                    assert(ids_refs(elements@.subrange(0, i + 1)) + ids_refs(
                        elements@.subrange(i + 1, elements@.len() as int),
                    ) =~= ids_refs(elements@));
                }
                r?;
                i = i + 1;
            }
            assert(elements@.subrange(0, elements@.len() as int) =~= elements@);
            Ok(())
        },
    }
}

fn validate_connections(conns: &Vec<ConnectionDecl>, defined: &Vec<String>) -> (r: Result<
    (),
    LayoutError,
>)
    ensures
        refs_check(r, conns_refs(conns@), views(defined@)),
{
    let ghost d = views(defined@);
    let mut i: usize = 0;
    while i < conns.len()
        invariant
            i <= conns@.len(),
            d == views(defined@),
            first_undefined(conns_refs(conns@.subrange(0, i as int)), d) is None,
        decreases conns@.len() - i,
    {
        let c = &conns[i];
        let ghost pre = conns_refs(conns@.subrange(0, i as int));
        let ghost here = seq![id_ref(c.from.element), id_ref(c.to.element)];
        let ghost upto = conns_refs(conns@.subrange(0, i + 1));
        let ghost rest = conns_refs(conns@.subrange(i + 1, conns@.len() as int));
        proof {
            assert(conns@.subrange(0, i + 1).drop_last() =~= conns@.subrange(0, i as int));
            assert(upto == pre + here);
            lemma_first_undefined_concat(pre, here, d);
            lemma_first_undefined_concat(seq![id_ref(c.from.element)], seq![id_ref(c.to.element)], d);
            assert(seq![id_ref(c.from.element)] + seq![id_ref(c.to.element)] =~= here);
            lemma_conns_refs_split(conns@, i as int + 1);
            lemma_first_undefined_concat(upto, rest, d);
        }
        validate_ident(&c.from.element, defined)?;
        validate_ident(&c.to.element, defined)?;
        i = i + 1;
    }
    assert(conns@.subrange(0, conns@.len() as int) =~= conns@);
    Ok(())
}

proof fn lemma_conns_refs_split(cs: Seq<ConnectionDecl>, k: int)
    requires
        0 <= k <= cs.len(),
    ensures
        conns_refs(cs) == conns_refs(cs.subrange(0, k)) + conns_refs(cs.subrange(k, cs.len() as int)),
    decreases cs.len() - k,
{
    if k == cs.len() {
        assert(cs.subrange(0, k) =~= cs);
        assert(conns_refs(cs.subrange(k, cs.len() as int)) =~= Seq::<(Seq<char>, Span)>::empty());
        assert(conns_refs(cs) + Seq::<(Seq<char>, Span)>::empty() =~= conns_refs(cs));
    } else {
        lemma_conns_refs_split(cs, k + 1);
        lemma_conns_refs_prefix_step(cs, k);
        lemma_conns_refs_suffix_step(cs, k);
    }
}

proof fn lemma_conns_refs_prefix_step(cs: Seq<ConnectionDecl>, k: int)
    requires
        0 <= k < cs.len(),
    ensures
        conns_refs(cs.subrange(0, k + 1)) == conns_refs(cs.subrange(0, k)) + seq![
            id_ref(cs[k].from.element),
            id_ref(cs[k].to.element),
        ],
{
    assert(cs.subrange(0, k + 1).drop_last() =~= cs.subrange(0, k));
}

proof fn lemma_conns_refs_suffix_step(cs: Seq<ConnectionDecl>, k: int)
    requires
        0 <= k < cs.len(),
    ensures
        conns_refs(cs.subrange(k, cs.len() as int)) == seq![
            id_ref(cs[k].from.element),
            id_ref(cs[k].to.element),
        ] + conns_refs(cs.subrange(k + 1, cs.len() as int)),
    decreases cs.len() - k,
{
    let s = cs.subrange(k, cs.len() as int);
    if k + 1 == cs.len() {
        assert(s.drop_last() =~= Seq::<ConnectionDecl>::empty());
        assert(cs.subrange(k + 1, cs.len() as int) =~= Seq::<ConnectionDecl>::empty());
        assert(s.last() == cs[k]);
        assert(conns_refs(s.drop_last()) =~= Seq::<(Seq<char>, Span)>::empty());
        assert(conns_refs(s) =~= seq![id_ref(cs[k].from.element), id_ref(cs[k].to.element)]);
    } else {
        lemma_conns_refs_suffix_step(cs.drop_last(), k);
        assert(s.drop_last() =~= cs.drop_last().subrange(k, cs.len() - 1));
        assert(cs.subrange(k + 1, cs.len() as int).drop_last() =~= cs.drop_last().subrange(
            k + 1,
            cs.len() - 1,
        ));
        assert(s.last() == cs.subrange(k + 1, cs.len() as int).last());
    }
}

fn validate_refs_in_statement(stmt: &Statement, defined: &Vec<String>) -> (r: Result<(), LayoutError>)
    ensures
        refs_check(r, stmt_refs(*stmt), views(defined@)),
    decreases stmt, 1nat,
{
    let ghost d = views(defined@);
    match stmt {
        Statement::Connection(conns) => validate_connections(conns, defined),
        Statement::Constraint(c) => {
            let ghost s1 = seq![id_ref(c.subject)];
            let ghost s2 = anchor_refs(c.anchor);
            proof {
                lemma_first_undefined_concat(s1, s2, d);
                assert(s1 + s2 == stmt_refs(*stmt));
            }
            validate_ident(&c.subject, defined)?;
            match &c.anchor {
                Some(a) => validate_ident(a, defined),
                None => Ok(()),
            }
        },
        Statement::Layout(l) => validate_refs_in_statements(&l.children, defined),
        Statement::Group(g) => validate_refs_in_statements(&g.children, defined),
        Statement::Label(inner) => validate_refs_in_statement(inner, defined),
        Statement::Constrain(c) => validate_constraint_expr_refs(&c.expr, defined),
        Statement::TemplateInstance(inst) => validate_ident(&inst.template_name, defined),
        _ => {
            assert(stmt_refs(*stmt) =~= Seq::<(Seq<char>, Span)>::empty());
            Ok(())
        },
    }
}

proof fn lemma_stmts_refs_split(ss: Seq<Spanned<Statement>>, k: int)
    requires
        0 <= k <= ss.len(),
    ensures
        stmts_refs(ss) == stmts_refs(ss.subrange(0, k)) + stmts_refs(ss.subrange(k, ss.len() as int)),
    decreases ss.len() - k,
{
    if k == ss.len() {
        assert(ss.subrange(0, k) =~= ss);
        assert(stmts_refs(ss.subrange(k, ss.len() as int)) =~= Seq::<(Seq<char>, Span)>::empty());
        assert(stmts_refs(ss) + Seq::<(Seq<char>, Span)>::empty() =~= stmts_refs(ss));
    } else {
        lemma_stmts_refs_split(ss, k + 1);
        let p = ss.subrange(0, k + 1);
        assert(p.subrange(0, p.len() - 1) =~= ss.subrange(0, k));
        lemma_stmts_refs_suffix_step(ss, k);
    }
}

proof fn lemma_stmts_refs_suffix_step(ss: Seq<Spanned<Statement>>, k: int)
    requires
        0 <= k < ss.len(),
    ensures
        stmts_refs(ss.subrange(k, ss.len() as int)) == stmt_refs(ss[k].node) + stmts_refs(
            ss.subrange(k + 1, ss.len() as int),
        ),
    decreases ss.len() - k,
{
    let s = ss.subrange(k, ss.len() as int);
    if k + 1 == ss.len() {
        assert(s.subrange(0, s.len() - 1) =~= Seq::<Spanned<Statement>>::empty());
        assert(ss.subrange(k + 1, ss.len() as int) =~= Seq::<Spanned<Statement>>::empty());
        assert(s[s.len() - 1] == ss[k]);
        assert(stmts_refs(s.subrange(0, s.len() - 1)) =~= Seq::<(Seq<char>, Span)>::empty());
        assert(stmts_refs(s) =~= stmt_refs(ss[k].node));
        assert(stmt_refs(ss[k].node) + Seq::<(Seq<char>, Span)>::empty() =~= stmt_refs(ss[k].node));
    } else {
        let t = ss.subrange(0, ss.len() - 1);
        lemma_stmts_refs_suffix_step(t, k);
        assert(s.subrange(0, s.len() - 1) =~= t.subrange(k, t.len() as int));
        let u = ss.subrange(k + 1, ss.len() as int);
        assert(u.subrange(0, u.len() - 1) =~= t.subrange(k + 1, t.len() as int));
        assert(s[s.len() - 1] == u[u.len() - 1]);
    }
}

fn validate_refs_in_statements(stmts: &Vec<Spanned<Statement>>, defined: &Vec<String>) -> (r: Result<
    (),
    LayoutError,
>)
    ensures
        refs_check(r, stmts_refs(stmts@), views(defined@)),
    decreases stmts, 0nat,
{
    let ghost d = views(defined@);
    let mut i: usize = 0;
    while i < stmts.len()
        invariant
            i <= stmts@.len(),
            d == views(defined@),
            first_undefined(stmts_refs(stmts@.subrange(0, i as int)), d) is None,
        decreases stmts@.len() - i,
    {
        let ghost pre = stmts_refs(stmts@.subrange(0, i as int));
        let ghost here = stmt_refs(stmts@[i as int].node);
        let ghost upto = stmts_refs(stmts@.subrange(0, i + 1));
        let ghost rest = stmts_refs(stmts@.subrange(i + 1, stmts@.len() as int));
        proof {
            let p = stmts@.subrange(0, i + 1);
            assert(p.subrange(0, p.len() - 1) =~= stmts@.subrange(0, i as int));
            assert(upto == pre + here);
            lemma_first_undefined_concat(pre, here, d);
            lemma_stmts_refs_split(stmts@, i as int + 1);
            lemma_first_undefined_concat(upto, rest, d);
        }
        assert(decreases_to!(stmts => stmts@[i as int].node));
        validate_refs_in_statement(&stmts[i].node, defined)?;
        i = i + 1;
    }
    assert(stmts@.subrange(0, stmts@.len() as int) =~= stmts@);
    Ok(())
}

/// Validate that all identifier references in the document resolve to
/// defined elements. The error names the first reference, in document order,
/// to an undefined name, with up to three similar defined names.
pub fn validate_references(doc: &Document) -> (r: Result<(), LayoutError>)
    ensures
        refs_check(r, stmts_refs(doc.statements@), defined_identifiers(*doc)),
        r is Ok <==> (forall|k: int|
            0 <= k < stmts_refs(doc.statements@).len() ==> defined_identifiers(*doc).contains(
                #[trigger] stmts_refs(doc.statements@)[k].0,
            )),
{
    let defined = collect_defined_identifiers(doc);
    let r = validate_refs_in_statements(&doc.statements, &defined);
    proof {
        lemma_first_undefined_none(stmts_refs(doc.statements@), defined_identifiers(*doc));
    }
    r
}

/// Every reference one statement of a list makes is a reference of the list.
pub proof fn lemma_stmts_refs_include(ss: Seq<Spanned<Statement>>, s: int, k: int)
    requires
        0 <= s < ss.len(),
        0 <= k < stmt_refs(ss[s].node).len(),
    ensures
        stmts_refs(ss).contains(stmt_refs(ss[s].node)[k]),
    decreases ss.len(),
{
    let p = ss.subrange(0, ss.len() - 1);
    let all = stmts_refs(ss);
    assert(all == stmts_refs(p) + stmt_refs(ss[ss.len() - 1].node));
    if s == ss.len() - 1 {
        assert(all[stmts_refs(p).len() + k] == stmt_refs(ss[s].node)[k]);
    } else {
        assert(p[s] == ss[s]);
        lemma_stmts_refs_include(p, s, k);
        let w = choose|w: int| 0 <= w < stmts_refs(p).len() && stmts_refs(p)[w] == stmt_refs(ss[s].node)[k];
        assert(all[w] == stmts_refs(p)[w]);
    }
}

/// Both ends of every connection of a list are among its references.
pub proof fn lemma_conns_refs_include(cs: Seq<ConnectionDecl>, m: int)
    requires
        0 <= m < cs.len(),
    ensures
        conns_refs(cs).contains(id_ref(cs[m].from.element)),
        conns_refs(cs).contains(id_ref(cs[m].to.element)),
    decreases cs.len(),
{
    let p = cs.drop_last();
    let all = conns_refs(cs);
    let n: int = conns_refs(p).len() as int;
    if m == cs.len() - 1 {
        assert(all[n] == id_ref(cs[m].from.element));
        assert(all[n + 1] == id_ref(cs[m].to.element));
    } else {
        assert(p[m] == cs[m]);
        lemma_conns_refs_include(p, m);
        let w1 = choose|w: int| 0 <= w < n && conns_refs(p)[w] == id_ref(cs[m].from.element);
        let w2 = choose|w: int| 0 <= w < n && conns_refs(p)[w] == id_ref(cs[m].to.element);
        assert(all[w1] == conns_refs(p)[w1]);
        assert(all[w2] == conns_refs(p)[w2]);
    }
}

/// `validate_references` accepts a document (every referenced name is
/// defined) only if every identifier its statements use is defined: the
/// subject and the anchor of each relational constraint, both ends of each
/// connection, and the template of each instance.
pub proof fn lemma_used_identifiers_are_defined(doc: Document, s: int)
    requires
        0 <= s < doc.statements@.len(),
        forall|k: int|
            0 <= k < stmts_refs(doc.statements@).len() ==> defined_identifiers(doc).contains(
                #[trigger] stmts_refs(doc.statements@)[k].0,
            ),
    ensures
        doc.statements@[s].node matches Statement::Constraint(c) ==> defined_identifiers(doc).contains(
            c.subject.node.0@,
        ) && (c.anchor matches Some(x) ==> defined_identifiers(doc).contains(x.node.0@)),
        doc.statements@[s].node matches Statement::Connection(cs) ==> forall|m: int|
            0 <= m < cs@.len() ==> defined_identifiers(doc).contains(#[trigger] cs@[m].from.element.node.0@)
                && defined_identifiers(doc).contains(cs@[m].to.element.node.0@),
        doc.statements@[s].node matches Statement::TemplateInstance(t) ==> defined_identifiers(doc).contains(
            t.template_name.node.0@,
        ),
{
    let ss = doc.statements@;
    let all = stmts_refs(ss);
    let d = defined_identifiers(doc);
    let st = ss[s].node;
    match st {
        Statement::Constraint(c) => {
            let r = stmt_refs(st);
            assert(r[0] == id_ref(c.subject));
            lemma_stmts_refs_include(ss, s, 0);
            let w = choose|w: int| 0 <= w < all.len() && all[w] == r[0];
            assert(d.contains(all[w].0));
            match c.anchor {
                Some(x) => {
                    assert(r[1] == id_ref(x));
                    lemma_stmts_refs_include(ss, s, 1);
                    let w2 = choose|w: int| 0 <= w < all.len() && all[w] == r[1];
                    assert(d.contains(all[w2].0));
                },
                None => {},
            }
        },
        Statement::Connection(cs) => {
            assert forall|m: int| 0 <= m < cs@.len() implies d.contains(#[trigger] cs@[m].from.element.node.0@)
                && d.contains(cs@[m].to.element.node.0@) by {
                lemma_conns_refs_include(cs@, m);
                let r = stmt_refs(st);
                let a = choose|w: int| 0 <= w < r.len() && r[w] == id_ref(cs@[m].from.element);
                let b = choose|w: int| 0 <= w < r.len() && r[w] == id_ref(cs@[m].to.element);
                lemma_stmts_refs_include(ss, s, a);
                lemma_stmts_refs_include(ss, s, b);
                let wa = choose|w: int| 0 <= w < all.len() && all[w] == r[a];
                let wb = choose|w: int| 0 <= w < all.len() && all[w] == r[b];
                assert(d.contains(all[wa].0));
                assert(d.contains(all[wb].0));
            }
        },
        Statement::TemplateInstance(t) => {
            let r = stmt_refs(st);
            assert(r[0] == id_ref(t.template_name));
            lemma_stmts_refs_include(ss, s, 0);
            let w = choose|w: int| 0 <= w < all.len() && all[w] == r[0];
            assert(d.contains(all[w].0));
        },
        _ => {},
    }
}

/// No reference is undefined exactly when every referenced name is defined.
pub proof fn lemma_first_undefined_none(refs: Seq<(Seq<char>, Span)>, defined: Seq<Seq<char>>)
    ensures
        first_undefined(refs, defined) is None <==> (forall|k: int|
            0 <= k < refs.len() ==> defined.contains(#[trigger] refs[k].0)),
    decreases refs.len(),
{
    if refs.len() > 0 {
        let tail = refs.subrange(1, refs.len() as int);
        lemma_first_undefined_none(tail, defined);
        if first_undefined(refs, defined) is None {
            assert forall|k: int| 0 <= k < refs.len() implies defined.contains(#[trigger] refs[k].0) by {
                if k > 0 {
                    assert(refs[k] == tail[k - 1]);
                }
            }
        } else if defined.contains(refs[0].0) {
            let k0 = choose|k: int| 0 <= k < tail.len() && !defined.contains(#[trigger] tail[k].0);
            assert(refs[k0 + 1] == tail[k0]);
        }
    }
}

} // verus!
