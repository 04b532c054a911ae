//! Character-level string helpers with contracts over `Seq<char>`.

use vstd::prelude::*;
use vstd::string::*;

verus! {

/// Appends one character to a `String` (std's `String::push`).
/// Trusted: the resulting text is the old text followed by `c`.
#[verifier::external_body]
pub(crate) fn push_char(s: &mut String, c: char)
    ensures
        final(s)@ == old(s)@.push(c),
{
    s.push(c)
}

/// The characters of `s`, in order.
pub fn chars_of(s: &str) -> (v: Vec<char>)
    ensures
        v@ == s@,
{
    let n = s.unicode_len();
    let mut v: Vec<char> = Vec::new();
    let mut i: usize = 0;
    while i < n
        invariant
            n == s@.len(),
            i <= n,
            v@ == s@.subrange(0, i as int),
        decreases n - i,
    {
        let c = s.get_char(i);
        v.push(c);
        i = i + 1;
        assert(v@ =~= s@.subrange(0, i as int));
    }
    assert(v@ =~= s@);
    v
}

/// A `String` holding exactly the characters of `cs`.
pub fn string_of(cs: &[char]) -> (r: String)
    ensures
        r@ == cs@,
{
    let mut r = String::new();
    let mut i: usize = 0;
    while i < cs.len()
        invariant
            i <= cs@.len(),
            r@ == cs@.subrange(0, i as int),
        decreases cs@.len() - i,
    {
        push_char(&mut r, cs[i]);
        i = i + 1;
        assert(r@ =~= cs@.subrange(0, i as int));
    }
    assert(r@ =~= cs@);
    r
}

/// A `String` holding the characters of `cs[start..end]`.
pub fn string_of_range(cs: &[char], start: usize, end: usize) -> (r: String)
    requires
        start <= end <= cs@.len(),
    ensures
        r@ == cs@.subrange(start as int, end as int),
{
    let mut r = String::new();
    let mut i: usize = start;
    while i < end
        invariant
            start <= i <= end <= cs@.len(),
            r@ == cs@.subrange(start as int, i as int),
        decreases end - i,
    {
        push_char(&mut r, cs[i]);
        i = i + 1;
        assert(r@ =~= cs@.subrange(start as int, i as int));
    }
    r
}

/// Whether two texts are the same, character for character.
pub fn str_eq(a: &str, b: &str) -> (r: bool)
    ensures
        r == (a@ == b@),
{
    let x = chars_of(a);
    let y = chars_of(b);
    chars_eq(&x, &y)
}

/// Whether two character slices are equal.
pub fn chars_eq(x: &[char], y: &[char]) -> (r: bool)
    ensures
        r == (x@ == y@),
{
    if x.len() != y.len() {
        return false;
    }
    let mut i: usize = 0;
    while i < x.len()
        invariant
            x@.len() == y@.len(),
            i <= x@.len(),
            forall|k: int| 0 <= k < i ==> x@[k] == y@[k],
        decreases x@.len() - i,
    {
        if x[i] != y[i] {
            return false;
        }
        i = i + 1;
    }
    assert(x@ =~= y@);
    true
}

/// `needle` occurs in `hay` starting at position `i`.
pub open spec fn occurs_at(hay: Seq<char>, needle: Seq<char>, i: int) -> bool {
    0 <= i && i + needle.len() <= hay.len() && hay.subrange(i, i + needle.len()) == needle
}

/// `needle` occurs somewhere in `hay` (std's `str::contains`).
pub open spec fn contains_seq(hay: Seq<char>, needle: Seq<char>) -> bool {
    exists|i: int| occurs_at(hay, needle, i)
}

/// Whether `needle` occurs in `hay` at position `i`.
pub fn chars_occur_at(hay: &[char], needle: &[char], i: usize) -> (r: bool)
    ensures
        r == occurs_at(hay@, needle@, i as int),
{
    if i > hay.len() || needle.len() > hay.len() - i {
        return false;
    }
    let hl = hay.len();
    let mut k: usize = 0;
    while k < needle.len()
        invariant
            hl == hay@.len(),
            i + needle@.len() <= hay@.len(),
            k <= needle@.len(),
            forall|m: int| 0 <= m < k ==> hay@[i + m] == needle@[m],
        decreases needle@.len() - k,
    {
        assert(i + k < hl);
        if hay[i + k] != needle[k] {
            assert(hay@.subrange(i as int, i + needle@.len())[k as int] != needle@[k as int]);
            return false;
        }
        k = k + 1;
    }
    assert(hay@.subrange(i as int, i + needle@.len()) =~= needle@);
    true
}

/// Whether `needle` occurs anywhere in `hay`.
pub fn chars_contain(hay: &[char], needle: &[char]) -> (r: bool)
    ensures
        r == contains_seq(hay@, needle@),
{
    let mut i: usize = 0;
    while i < hay.len()
        invariant
            i <= hay@.len(),
            forall|j: int| 0 <= j < i ==> !occurs_at(hay@, needle@, j),
        decreases hay@.len() - i,
    {
        if chars_occur_at(hay, needle, i) {
            return true;
        }
        i = i + 1;
    }
    if chars_occur_at(hay, needle, i) {
        return true;
    }
    assert forall|j: int| !occurs_at(hay@, needle@, j) by {
        if 0 <= j && j <= i {
        } else if j > i {
            assert(j + needle@.len() > hay@.len());
        }
    }
    false
}

/// Whether the text `needle` occurs in the text `hay`.
pub fn str_contains(hay: &str, needle: &str) -> (r: bool)
    ensures
        r == contains_seq(hay@, needle@),
{
    let h = chars_of(hay);
    let n = chars_of(needle);
    chars_contain(&h, &n)
}

/// The decimal digit for `d < 10`.
pub open spec fn digit_char(d: nat) -> char {
    if d == 0 { '0' }
    else if d == 1 { '1' }
    else if d == 2 { '2' }
    else if d == 3 { '3' }
    else if d == 4 { '4' }
    else if d == 5 { '5' }
    else if d == 6 { '6' }
    else if d == 7 { '7' }
    else if d == 8 { '8' }
    else { '9' }
}

/// Decimal spelling of a natural number, without leading zeros.
pub open spec fn decimal(n: nat) -> Seq<char>
    decreases n,
{
    if n < 10 {
        seq![digit_char(n)]
    } else {
        decimal(n / 10).push(digit_char(n % 10))
    }
}

/// The decimal digit character for `d < 10`.
pub fn digit_to_char(d: u64) -> (c: char)
    requires
        d < 10,
    ensures
        c == digit_char(d as nat),
{
    if d == 0 { '0' }
    else if d == 1 { '1' }
    else if d == 2 { '2' }
    else if d == 3 { '3' }
    else if d == 4 { '4' }
    else if d == 5 { '5' }
    else if d == 6 { '6' }
    else if d == 7 { '7' }
    else if d == 8 { '8' }
    else { '9' }
}

/// Appends the decimal spelling of `n` to `s`.
pub fn push_decimal(s: &mut String, n: u64)
    ensures
        final(s)@ == old(s)@ + decimal(n as nat),
    decreases n,
{
    if n < 10 {
        push_char(s, digit_to_char(n));
        assert(old(s)@ + decimal(n as nat) =~= old(s)@.push(digit_char(n as nat)));
    } else {
        push_decimal(s, n / 10);
        push_char(s, digit_to_char(n % 10));
        assert(old(s)@ + decimal(n as nat) =~= old(s)@ + decimal((n / 10) as nat) + seq![
            digit_char((n % 10) as nat),
        ]);
    }
}

/// Decimal spelling of a `usize`.
pub fn usize_to_string(n: usize) -> (r: String)
    ensures
        r@ == decimal(n as nat),
{
    let mut s = String::new();
    push_decimal(&mut s, n as u64);
    assert(s@ =~= decimal(n as nat));
    s
}

/// `c` is an ASCII letter.
pub open spec fn is_ascii_alpha(c: char) -> bool {
    ('a' <= c && c <= 'z') || ('A' <= c && c <= 'Z')
}

/// `c` is an ASCII upper-case letter.
pub open spec fn is_ascii_upper(c: char) -> bool {
    'A' <= c && c <= 'Z'
}

/// ASCII lower-casing of one character (others unchanged).
pub open spec fn lower_char(c: char) -> char {
    if is_ascii_upper(c) {
        ((c as u32) + 32) as char
    } else {
        c
    }
}

/// ASCII lower-casing of a text.
pub open spec fn lower_seq(s: Seq<char>) -> Seq<char> {
    s.map_values(|c: char| lower_char(c))
}

/// Unicode `White_Space` (std's `char::is_whitespace`).
pub open spec fn is_white(c: char) -> bool {
    let u = c as u32;
    (0x9 <= u && u <= 0xD) || u == 0x20 || u == 0x85 || u == 0xA0 || u == 0x1680
        || (0x2000 <= u && u <= 0x200A) || u == 0x2028 || u == 0x2029 || u == 0x202F
        || u == 0x205F || u == 0x3000
}

pub fn char_is_ascii_alpha(c: char) -> (r: bool)
    ensures
        r == is_ascii_alpha(c),
{
    ('a' <= c && c <= 'z') || ('A' <= c && c <= 'Z')
}

pub fn char_is_white(c: char) -> (r: bool)
    ensures
        r == is_white(c),
{
    let u = c as u32;
    (0x9 <= u && u <= 0xD) || u == 0x20 || u == 0x85 || u == 0xA0 || u == 0x1680
        || (0x2000 <= u && u <= 0x200A) || u == 0x2028 || u == 0x2029 || u == 0x202F
        || u == 0x205F || u == 0x3000
}

pub fn char_to_lower(c: char) -> (r: char)
    ensures
        r == lower_char(c),
{
    if 'A' <= c && c <= 'Z' {
        let b: u8 = c as u8;
        let l: u8 = b + 32;
        let r = l as char;
        assert(r == ((c as u32) + 32) as char);
        r
    } else {
        c
    }
}

/// ASCII lower-cased copy of `cs`.
pub fn chars_to_lower(cs: &[char]) -> (r: Vec<char>)
    ensures
        r@ == lower_seq(cs@),
{
    let mut r: Vec<char> = Vec::new();
    let mut i: usize = 0;
    while i < cs.len()
        invariant
            i <= cs@.len(),
            r@ == lower_seq(cs@.subrange(0, i as int)),
        decreases cs@.len() - i,
    {
        let l = char_to_lower(cs[i]);
        r.push(l);
        i = i + 1;
        assert(r@ =~= lower_seq(cs@.subrange(0, i as int)));
    }
    assert(cs@.subrange(0, cs@.len() as int) =~= cs@);
    r
}

/// Texts joined with a separator between consecutive ones.
pub open spec fn join_seqs(parts: Seq<Seq<char>>, sep: Seq<char>) -> Seq<char>
    decreases parts.len(),
{
    if parts.len() == 0 {
        Seq::empty()
    } else if parts.len() == 1 {
        parts[0]
    } else {
        join_seqs(parts.drop_last(), sep) + sep + parts.last()
    }
}

/// The views of a list of strings.
pub open spec fn views(v: Seq<String>) -> Seq<Seq<char>> {
    v.map_values(|s: String| s@)
}

/// Joins strings with a separator (std's `[String]::join`).
pub fn join_strings(v: &[String], sep: &str) -> (r: String)
    ensures
        r@ == join_seqs(views(v@), sep@),
{
    let mut r = String::new();
    let mut i: usize = 0;
    while i < v.len()
        invariant
            i <= v@.len(),
            r@ == join_seqs(views(v@.subrange(0, i as int)), sep@),
        decreases v@.len() - i,
    {
        let ghost before = views(v@.subrange(0, i as int));
        let ghost after = views(v@.subrange(0, i + 1));
        assert(after.drop_last() =~= before);
        assert(after.last() == v@[i as int]@);
        if i > 0 {
            r.append(sep);
        } else {
            assert(r@ =~= Seq::<char>::empty());
        }
        r.append(v[i].as_str());
        i = i + 1;
        proof {
            if i == 1 {
                assert(r@ =~= after[0]);
            }
        }
    }
    assert(v@.subrange(0, v@.len() as int) =~= v@);
    r
}

/// The first position at or after `start` where `needle` occurs in `hay`.
pub open spec fn find_from(hay: Seq<char>, needle: Seq<char>, start: int) -> Option<int>
    decreases hay.len() + 1 - start,
{
    if start < 0 || start + needle.len() > hay.len() {
        None
    } else if occurs_at(hay, needle, start) {
        Some(start)
    } else {
        find_from(hay, needle, start + 1)
    }
}

/// The first position where `needle` occurs in `hay` (std's `str::find`).
pub open spec fn find_first(hay: Seq<char>, needle: Seq<char>) -> Option<int> {
    find_from(hay, needle, 0)
}

/// The first position where `needle` occurs in `hay`.
pub fn chars_find(hay: &[char], needle: &[char]) -> (r: Option<usize>)
    ensures
        match r {
            Some(i) => find_first(hay@, needle@) == Some(i as int),
            None => find_first(hay@, needle@) is None,
        },
{
    let mut i: usize = 0;
    while i < hay.len() && needle.len() <= hay.len() - i
        invariant
            i <= hay@.len(),
            find_first(hay@, needle@) == find_from(hay@, needle@, i as int),
        decreases hay@.len() - i,
    {
        if chars_occur_at(hay, needle, i) {
            return Some(i);
        }
        i = i + 1;
    }
    if i <= hay.len() && needle.len() <= hay.len() - i {
        if chars_occur_at(hay, needle, i) {
            return Some(i);
        }
        assert(find_from(hay@, needle@, i + 1) is None);
    }
    None
}

/// `s` without its leading double quotes.
pub open spec fn trim_quotes_start(s: Seq<char>) -> Seq<char>
    decreases s.len(),
{
    if s.len() > 0 && s[0] == '"' {
        trim_quotes_start(s.drop_first())
    } else {
        s
    }
}

/// `s` without its trailing double quotes.
pub open spec fn trim_quotes_end(s: Seq<char>) -> Seq<char>
    decreases s.len(),
{
    if s.len() > 0 && s.last() == '"' {
        trim_quotes_end(s.drop_last())
    } else {
        s
    }
}

/// `s` with the double quotes at both ends removed (std's `trim_matches('"')`).
pub open spec fn trim_quotes(s: Seq<char>) -> Seq<char> {
    trim_quotes_end(trim_quotes_start(s))
}

proof fn lemma_trim_start(s: Seq<char>, i: int)
    requires
        0 <= i <= s.len(),
        forall|k: int| 0 <= k < i ==> s[k] == '"',
        i == s.len() || s[i] != '"',
    ensures
        trim_quotes_start(s) == s.subrange(i, s.len() as int),
    decreases i,
{
    if i == 0 {
        assert(s.subrange(0, s.len() as int) =~= s);
    } else {
        let t = s.drop_first();
        assert forall|k: int| 0 <= k < i - 1 implies t[k] == '"' by {
            assert(t[k] == s[k + 1]);
        }
        if i - 1 < t.len() {
            assert(t[i - 1] == s[i]);
        }
        lemma_trim_start(t, i - 1);
        assert(t.subrange(i - 1, t.len() as int) =~= s.subrange(i, s.len() as int));
    }
}

proof fn lemma_trim_end(s: Seq<char>, j: int)
    requires
        0 <= j <= s.len(),
        forall|k: int| j <= k < s.len() ==> s[k] == '"',
        j == 0 || s[j - 1] != '"',
    ensures
        trim_quotes_end(s) == s.subrange(0, j),
    decreases s.len() - j,
{
    if j == s.len() {
        assert(s.subrange(0, s.len() as int) =~= s);
    } else {
        let t = s.drop_last();
        assert forall|k: int| j <= k < t.len() implies t[k] == '"' by {
            assert(t[k] == s[k]);
        }
        if j > 0 {
            assert(t[j - 1] == s[j - 1]);
        }
        lemma_trim_end(t, j);
        assert(t.subrange(0, j) =~= s.subrange(0, j));
    }
}

/// The text of `s` with the double quotes at both ends removed.
pub fn trim_quotes_exec(s: &str) -> (r: String)
    ensures
        r@ == trim_quotes(s@),
{
    let cs = chars_of(s);
    let mut i: usize = 0;
    while i < cs.len() && cs[i] == '"'
        invariant
            i <= cs@.len(),
            forall|k: int| 0 <= k < i ==> cs@[k] == '"',
        decreases cs@.len() - i,
    {
        i = i + 1;
    }
    proof {
        lemma_trim_start(cs@, i as int);
    }
    let ghost t = cs@.subrange(i as int, cs@.len() as int);
    let mut j: usize = cs.len();
    while j > i && cs[j - 1] == '"'
        invariant
            i <= j <= cs@.len(),
            forall|k: int| j <= k < cs@.len() ==> cs@[k] == '"',
        decreases j,
    {
        j = j - 1;
    }
    proof {
        assert forall|k: int| j - i <= k < t.len() implies t[k] == '"' by {
            assert(t[k] == cs@[k + i]);
        }
        if j > i {
            assert(t[j - i - 1] == cs@[j - 1]);
        }
        lemma_trim_end(t, j - i);
        assert(t.subrange(0, j - i) =~= cs@.subrange(i as int, j as int));
    }
    string_of_range(&cs, i, j)
}

/// `a` sorts before `b`, character by character (std's `str` order).
pub open spec fn seq_lt(a: Seq<char>, b: Seq<char>) -> bool
    decreases a.len(),
{
    if a.len() == 0 {
        b.len() > 0
    } else if b.len() == 0 {
        false
    } else if a[0] != b[0] {
        (a[0] as u32) < (b[0] as u32)
    } else {
        seq_lt(a.drop_first(), b.drop_first())
    }
}

proof fn lemma_char_u32(c: char)
    ensures
        (c as u32) as int == c as int,
{
    assert(0 <= c as int <= 0x10FFFF);
}

/// Of two different texts exactly one comes first, and no text comes before itself.
pub proof fn lemma_seq_lt_total(a: Seq<char>, b: Seq<char>)
    ensures
        !seq_lt(a, a),
        a != b ==> (seq_lt(a, b) <==> !seq_lt(b, a)),
    decreases a.len(),
{
    if a.len() > 0 {
        lemma_seq_lt_total(a.drop_first(), a.drop_first());
        if b.len() > 0 && a[0] == b[0] {
            lemma_seq_lt_total(a.drop_first(), b.drop_first());
            if a.drop_first() == b.drop_first() {
                assert(a =~= seq![a[0]] + a.drop_first());
                assert(b =~= seq![b[0]] + b.drop_first());
            }
        } else if b.len() > 0 {
            lemma_char_u32(a[0]);
            lemma_char_u32(b[0]);
        }
    } else if b.len() == 0 {
        assert(a =~= b);
    }
}

proof fn lemma_seq_lt_skip(a: Seq<char>, b: Seq<char>, i: int)
    requires
        0 <= i <= a.len(),
        i <= b.len(),
        a.subrange(0, i) == b.subrange(0, i),
    ensures
        seq_lt(a, b) == seq_lt(a.subrange(i, a.len() as int), b.subrange(i, b.len() as int)),
    decreases i,
{
    if i == 0 {
        assert(a.subrange(0, a.len() as int) =~= a);
        assert(b.subrange(0, b.len() as int) =~= b);
    } else {
        assert(a[0] == a.subrange(0, i)[0]);
        assert(b[0] == b.subrange(0, i)[0]);
        assert(a.drop_first().subrange(0, i - 1) =~= b.drop_first().subrange(0, i - 1)) by {
            assert forall|k: int| 0 <= k < i - 1 implies a.drop_first()[k] == b.drop_first()[k] by {
                assert(a.drop_first()[k] == a[k + 1]);
                assert(b.drop_first()[k] == b[k + 1]);
                assert(a.subrange(0, i)[k + 1] == a[k + 1]);
                assert(b.subrange(0, i)[k + 1] == b[k + 1]);
            }
        }
        lemma_seq_lt_skip(a.drop_first(), b.drop_first(), i - 1);
        assert(a.drop_first().subrange(i - 1, a.len() - 1) =~= a.subrange(i, a.len() as int));
        assert(b.drop_first().subrange(i - 1, b.len() - 1) =~= b.subrange(i, b.len() as int));
    }
}

/// Whether `a` sorts at or before `b`.
pub fn text_le(a: &str, b: &str) -> (r: bool)
    ensures
        r == (a@ == b@ || seq_lt(a@, b@)),
{
    let x = chars_of(a);
    let y = chars_of(b);
    let mut i: usize = 0;
    while i < x.len() && i < y.len() && x[i] == y[i]
        invariant
            i <= x@.len(),
            i <= y@.len(),
            x@.subrange(0, i as int) == y@.subrange(0, i as int),
        decreases x@.len() - i,
    {
        assert(x@.subrange(0, i + 1) =~= x@.subrange(0, i as int).push(x@[i as int]));
        assert(y@.subrange(0, i + 1) =~= y@.subrange(0, i as int).push(y@[i as int]));
        i = i + 1;
    }
    proof {
        lemma_seq_lt_skip(x@, y@, i as int);
    }
    let ghost xs = x@.subrange(i as int, x@.len() as int);
    let ghost ys = y@.subrange(i as int, y@.len() as int);
    if i == x.len() {
        if i == y.len() {
            assert(x@ =~= y@) by {
                assert(x@ =~= x@.subrange(0, i as int));
                assert(y@ =~= y@.subrange(0, i as int));
            }
            true
        } else {
            assert(xs.len() == 0 && ys.len() > 0);
            true
        }
    } else if i == y.len() {
        assert(xs.len() > 0 && ys.len() == 0);
        assert(x@.len() != y@.len());
        false
    } else {
        assert(xs[0] == x@[i as int] && ys[0] == y@[i as int]);
        assert(x@[i as int] != y@[i as int]);
        assert(x@ != y@) by {
            if x@ == y@ {
                assert(x@[i as int] == y@[i as int]);
            }
        }
        (x[i] as u32) < (y[i] as u32)
    }
}

} // verus!
