//! The label markup subset: `<br>`, `<b>`, `<i>`, `<small>`, `<span fill=…>`
//! and the entities `&lt;`, `&gt;`, `&amp;`, `&quot;`.

use vstd::prelude::*;
use crate::strings::{
    join_seqs, join_strings, views, char_is_ascii_alpha, char_is_white, chars_eq, chars_of, chars_to_lower, is_ascii_alpha, is_white,
    lower_seq, push_char, string_of_range,
};
use super::lint::alpha_end;

verus! {

/// Tags the label markup subset understands. Anything else that looks like a
/// tag is left as literal text and reported by the linter.
pub open spec fn supported_tags() -> Seq<Seq<char>> {
    seq!["br"@, "b"@, "i"@, "small"@, "span"@]
}

/// Whether `name` is one of the supported tag names.
pub fn is_supported_tag(name: &[char]) -> (r: bool)
    ensures
        r == supported_tags().contains(name@),
{
    let tags: [&str; 5] = ["br", "b", "i", "small", "span"];
    let mut k: usize = 0;
    while k < 5
        invariant
            k <= 5,
            tags@ == seq!["br", "b", "i", "small", "span"],
            forall|j: int| 0 <= j < k ==> #[trigger] supported_tags()[j] != name@,
        decreases 5 - k,
    {
        let t = chars_of(tags[k]);
        if chars_eq(&t, name) {
            assert(supported_tags()[k as int] == name@);
            return true;
        }
        k = k + 1;
    }
    false
}

/// One styled span of text within a line.
#[derive(Debug)]
pub struct TextRun {
    pub text: String,
    pub bold: bool,
    pub italic: bool,
    /// How many `<small>` tags enclose the run; each scales the font by 0.8.
    pub small_depth: usize,
    /// Per-run colour from `<span fill=…>`, as a CSS colour string.
    pub fill: Option<String>,
}

/// A parsed label: lines of styled runs.
#[derive(Debug)]
pub struct RichText {
    pub lines: Vec<Vec<TextRun>>,
}

/// A malformed *recognised* tag. Unrecognised angle brackets are not
/// errors; they are text.
#[derive(Debug)]
pub struct MarkupError {
    pub message: String,
    /// Byte offset into the label string where the problem starts: the `<`
    /// of the offending tag, or the end of the label for a tag left open.
    pub offset: usize,
}

/// Style state carried down through nested tags.
struct MarkupStyle {
    bold: bool,
    italic: bool,
    small_depth: usize,
    fill: Option<String>,
}

/// A recognised tag read at some position.
struct ParsedTag {
    name: String,
    closing: bool,
    /// `fill=` value on a `<span>`.
    fill: Option<String>,
    /// Characters consumed, including the angle brackets.
    consumed: usize,
}

/// A run as plain values: text, bold, italic, `<small>` depth, fill.
pub type RunView = (Seq<char>, bool, bool, nat, Option<Seq<char>>);

/// A style as plain values: bold, italic, `<small>` depth, fill.
pub type StyleView = (bool, bool, nat, Option<Seq<char>>);

pub open spec fn opt_string_view(o: Option<String>) -> Option<Seq<char>> {
    match o {
        Some(s) => Some(s@),
        None => None,
    }
}

pub open spec fn run_view(r: TextRun) -> RunView {
    (r.text@, r.bold, r.italic, r.small_depth as nat, opt_string_view(r.fill))
}

pub open spec fn line_view(l: Seq<TextRun>) -> Seq<RunView> {
    l.map_values(|r: TextRun| run_view(r))
}

pub open spec fn lines_view(ls: Seq<Vec<TextRun>>) -> Seq<Seq<RunView>> {
    ls.map_values(|l: Vec<TextRun>| line_view(l@))
}

spec fn style_view(s: MarkupStyle) -> StyleView {
    (s.bold, s.italic, s.small_depth as nat, opt_string_view(s.fill))
}

spec fn stack_view(st: Seq<(String, MarkupStyle)>) -> Seq<(Seq<char>, StyleView)> {
    st.map_values(|e: (String, MarkupStyle)| (e.0@, style_view(e.1)))
}

/// The unstyled root style.
pub open spec fn root_style() -> StyleView {
    (false, false, 0, None)
}

// ---------------------------------------------------------------------------
// Tokens: entities and tags
// ---------------------------------------------------------------------------

/// `&name` stands at position `p`, with at least one character after it.
pub open spec fn entity_matches(cs: Seq<char>, p: int, name: Seq<char>) -> bool {
    0 <= p && cs.len() - p > name.len() && cs.subrange(p + 1, p + 1 + name.len()) == name
}

/// The entity at `p` (where `cs[p] == '&'`): its character and length.
pub open spec fn entity_at(cs: Seq<char>, p: int) -> Option<(char, int)> {
    if entity_matches(cs, p, "lt;"@) {
        Some(('<', ("lt;"@.len() + 1) as int))
    } else if entity_matches(cs, p, "gt;"@) {
        Some(('>', ("gt;"@.len() + 1) as int))
    } else if entity_matches(cs, p, "amp;"@) {
        Some(('&', ("amp;"@.len() + 1) as int))
    } else if entity_matches(cs, p, "quot;"@) {
        Some(('"', ("quot;"@.len() + 1) as int))
    } else {
        None
    }
}

/// End of an attribute name starting at `i`: the next `=` or `>`, or the end.
pub open spec fn attr_end(cs: Seq<char>, i: int) -> int
    decreases cs.len() - i,
{
    if i < 0 || i >= cs.len() || cs[i] == '=' || cs[i] == '>' {
        i
    } else {
        attr_end(cs, i + 1)
    }
}

/// End of an attribute value starting at `i`: a quoted value ends at a quote,
/// a bare one at white space; both end at `>` or the end.
pub open spec fn value_end(cs: Seq<char>, i: int, quote: bool) -> int
    decreases cs.len() - i,
{
    if i < 0 || i >= cs.len() || cs[i] == '>' || (quote && (cs[i] == '"' || cs[i] == '\'')) || (!quote
        && is_white(cs[i])) {
        i
    } else {
        value_end(cs, i + 1, quote)
    }
}

pub proof fn lemma_attr_end(cs: Seq<char>, i: int)
    requires
        0 <= i,
    ensures
        i <= attr_end(cs, i),
        i < cs.len() ==> attr_end(cs, i) <= cs.len(),
        i < cs.len() && cs[i] != '=' && cs[i] != '>' ==> i < attr_end(cs, i),
        i >= cs.len() ==> attr_end(cs, i) == i,
    decreases cs.len() - i,
{
    if i < cs.len() && cs[i] != '=' && cs[i] != '>' {
        lemma_attr_end(cs, i + 1);
    }
}

pub proof fn lemma_value_end(cs: Seq<char>, i: int, quote: bool)
    requires
        0 <= i,
    ensures
        i <= value_end(cs, i, quote),
        i <= cs.len() ==> value_end(cs, i, quote) <= cs.len(),
        i > cs.len() ==> value_end(cs, i, quote) == i,
    decreases cs.len() - i,
{
    if i < cs.len() && cs[i] != '>' && !(quote && (cs[i] == '"' || cs[i] == '\'')) && !(!quote && is_white(cs[i])) {
        lemma_value_end(cs, i + 1, quote);
    }
}

/// Scans a tag's attributes from `i` up to its `>` (or the end), keeping the
/// value of the last `fill=` attribute. Returns where the scan stopped.
pub open spec fn scan_attrs(cs: Seq<char>, i: int, fill: Option<Seq<char>>) -> (int, Option<Seq<char>>)
    decreases cs.len() + 2 - i,
{
    if i < 0 || i >= cs.len() || cs[i] == '>' {
        (i, fill)
    } else if is_white(cs[i]) || cs[i] == '/' {
        scan_attrs(cs, i + 1, fill)
    } else {
        let a = attr_end(cs, i);
        proof {
            lemma_attr_end(cs, i);
        }
        if a >= cs.len() || cs[a] != '=' {
            scan_attrs(cs, a, fill)
        } else {
            let j = a + 1;
            let quote = j < cs.len() && (cs[j] == '"' || cs[j] == '\'');
            let vs = if quote {
                j + 1
            } else {
                j
            };
            let ve = value_end(cs, vs, quote);
            proof {
                lemma_value_end(cs, vs, quote);
            }
            let next = if quote && ve < cs.len() {
                ve + 1
            } else {
                ve
            };
            let fill2 = if lower_seq(cs.subrange(i, a)) == "fill"@ {
                Some(cs.subrange(vs, ve))
            } else {
                fill
            };
            scan_attrs(cs, next, fill2)
        }
    }
}

/// The recognised tag at `p` (where `cs[p] == '<'`): its lower-case name,
/// whether it closes, its `fill=` value, and the position after its `>`.
pub open spec fn tag_at(cs: Seq<char>, p: int) -> Option<(Seq<char>, bool, Option<Seq<char>>, int)> {
    if p < 0 || p >= cs.len() {
        None
    } else {
        let closing = p + 1 < cs.len() && cs[p + 1] == '/';
        let ns = if closing {
            p + 2
        } else {
            p + 1
        };
        let ne = alpha_end(cs, ns);
        let name = lower_seq(cs.subrange(ns, ne));
        if !supported_tags().contains(name) {
            None
        } else {
            let (e, fill) = scan_attrs(cs, ne, None);
            if 0 <= e < cs.len() && cs[e] == '>' {
                Some((name, closing, fill, e + 1))
            } else {
                None
            }
        }
    }
}

// ---------------------------------------------------------------------------
// The parse
// ---------------------------------------------------------------------------

/// The length in bytes of the UTF-8 text of `cs`, as `str::len` gives it.
pub open spec fn byte_len(cs: Seq<char>) -> int {
    vstd::utf8::encode_utf8(cs).len() as usize as int
}

/// The lines after the pending characters are flushed as a run.
pub open spec fn flush(lines: Seq<Seq<RunView>>, buf: Seq<char>, st: StyleView) -> Seq<Seq<RunView>> {
    if buf.len() == 0 || lines.len() == 0 {
        lines
    } else {
        lines.update(lines.len() - 1, lines.last().push((buf, st.0, st.1, st.2, st.3)))
    }
}

/// The parse from position `i`, given the lines so far, the stack of open
/// tags, the current style and the pending characters.
pub open spec fn parse_from(
    cs: Seq<char>,
    i: int,
    lines: Seq<Seq<RunView>>,
    stack: Seq<(Seq<char>, StyleView)>,
    st: StyleView,
    buf: Seq<char>,
) -> Result<Seq<Seq<RunView>>, (Seq<char>, int)>
    decreases cs.len() - i,
{
    if i < 0 || i >= cs.len() {
        let done = flush(lines, buf, st);
        if stack.len() > 0 {
            let open = stack.last().0;
            Err(("<"@ + open + "> is never closed; add </"@ + open + ">"@, byte_len(cs)))
        } else {
            Ok(done)
        }
    } else {
        let c = cs[i];
        if c == '\n' {
            parse_from(cs, i + 1, flush(lines, buf, st).push(Seq::empty()), stack, st, Seq::empty())
        } else if c == '&' {
            match entity_at(cs, i) {
                Some((ch, n)) => if n >= 1 {
                    parse_from(cs, i + n, lines, stack, st, buf.push(ch))
                } else {
                    parse_from(cs, i + 1, lines, stack, st, buf.push(ch))
                },
                None => parse_from(cs, i + 1, lines, stack, st, buf.push('&')),
            }
        } else if c != '<' {
            parse_from(cs, i + 1, lines, stack, st, buf.push(c))
        } else {
            match tag_at(cs, i) {
                None => parse_from(cs, i + 1, lines, stack, st, buf.push('<')),
                Some((name, closing, fill, end)) => {
                    let ls = flush(lines, buf, st);
                    let next = if end > i {
                        end
                    } else {
                        i + 1
                    };
                    if closing {
                        if stack.len() > 0 && stack.last().0 == name {
                            parse_from(cs, next, ls, stack.drop_last(), stack.last().1, Seq::empty())
                        } else {
                            Err(("</"@ + name + "> closes a tag that was never opened"@, byte_len(cs.take(i))))
                        }
                    } else if name == "br"@ {
                        parse_from(cs, next, ls.push(Seq::empty()), stack, st, Seq::empty())
                    } else if name == "b"@ {
                        parse_from(cs, next, ls, stack.push(("b"@, st)), (true, st.1, st.2, st.3), Seq::empty())
                    } else if name == "i"@ {
                        parse_from(cs, next, ls, stack.push(("i"@, st)), (st.0, true, st.2, st.3), Seq::empty())
                    } else if name == "small"@ {
                        parse_from(cs, next, ls, stack.push(("small"@, st)), (st.0, st.1, st.2 + 1, st.3), Seq::empty())
                    } else {
                        match fill {
                            None => Err(("<span> needs a fill, e.g. <span fill=accent-dark>"@, byte_len(cs.take(i)))),
                            Some(f) => parse_from(cs, next, ls, stack.push(("span"@, st)), (st.0, st.1, st.2, Some(f)), Seq::empty()),
                        }
                    }
                },
            }
        }
    }
}

/// The parse of a label: lines of styled runs, or the first malformed
/// recognised tag.
pub open spec fn markup_parse(src: Seq<char>) -> Result<Seq<Seq<RunView>>, (Seq<char>, int)> {
    parse_from(src, 0, seq![Seq::empty()], Seq::empty(), root_style(), Seq::empty())
}

/// Text without `<`, `&` or line breaks.
pub open spec fn markup_free(cs: Seq<char>) -> bool {
    forall|k: int| 0 <= k < cs.len() ==> #[trigger] cs[k] != '<' && cs[k] != '&' && cs[k] != '\n'
}

proof fn lemma_parse_markup_free(
    cs: Seq<char>,
    i: int,
    lines: Seq<Seq<RunView>>,
    st: StyleView,
    buf: Seq<char>,
)
    requires
        markup_free(cs),
        0 <= i <= cs.len(),
    ensures
        parse_from(cs, i, lines, Seq::empty(), st, buf) == Ok::<Seq<Seq<RunView>>, (Seq<char>, int)>(
            flush(lines, buf + cs.subrange(i, cs.len() as int), st),
        ),
    decreases cs.len() - i,
{
    if i == cs.len() {
        assert(buf + cs.subrange(i, cs.len() as int) =~= buf);
    } else {
        lemma_parse_markup_free(cs, i + 1, lines, st, buf.push(cs[i]));
        assert(buf.push(cs[i]) + cs.subrange(i + 1, cs.len() as int) =~= buf + cs.subrange(i, cs.len() as int));
    }
}

/// Text without markup parses to itself: one line holding one unstyled run
/// (no run at all for the empty text).
pub proof fn lemma_plain_text_parses_to_itself(cs: Seq<char>)
    requires
        markup_free(cs),
    ensures
        markup_parse(cs) == Ok::<Seq<Seq<RunView>>, (Seq<char>, int)>(if cs.len() == 0 {
            seq![Seq::<RunView>::empty()]
        } else {
            seq![seq![(cs, false, false, 0nat, None::<Seq<char>>)]]
        }),
{
    lemma_parse_markup_free(cs, 0, seq![Seq::empty()], root_style(), Seq::empty());
    assert(Seq::<char>::empty() + cs.subrange(0, cs.len() as int) =~= cs);
    if cs.len() > 0 {
        assert(flush(seq![Seq::<RunView>::empty()], cs, root_style()) =~= seq![seq![(cs, false, false, 0nat, None::<Seq<char>>)]]);
    }
}

/// Characters without markup join the pending text, whatever tags are open.
proof fn lemma_plain_segment(
    cs: Seq<char>,
    i: int,
    j: int,
    lines: Seq<Seq<RunView>>,
    stack: Seq<(Seq<char>, StyleView)>,
    st: StyleView,
    buf: Seq<char>,
)
    requires
        0 <= i <= j <= cs.len(),
        forall|k: int| i <= k < j ==> #[trigger] cs[k] != '<' && cs[k] != '&' && cs[k] != '\n',
    ensures
        parse_from(cs, i, lines, stack, st, buf) == parse_from(cs, j, lines, stack, st, buf + cs.subrange(i, j)),
    decreases j - i,
{
    if i == j {
        assert(buf + cs.subrange(i, j) =~= buf);
    } else {
        assert(cs[i] != '<' && cs[i] != '&' && cs[i] != '\n');
        lemma_plain_segment(cs, i + 1, j, lines, stack, st, buf.push(cs[i]));
        assert(buf.push(cs[i]) + cs.subrange(i + 1, j) =~= buf + cs.subrange(i, j));
    }
}

/// Closing a tag restores the style in force when it was opened. For a tag
/// `<t>` at `i`, plain text up to its `</t>` at `j`, in any context (any
/// open tags, any current style `st`): the text between is one run in the
/// style the tag sets (`b` bold, `i` italic, `small` one level smaller,
/// `span` its fill), and what follows `</t>` is read with the same open tags
/// and the same style `st` as before `<t>`.
pub proof fn lemma_close_restores_style(
    cs: Seq<char>,
    i: int,
    j: int,
    lines: Seq<Seq<RunView>>,
    stack: Seq<(Seq<char>, StyleView)>,
    st: StyleView,
    buf: Seq<char>,
    name: Seq<char>,
    fill: Option<Seq<char>>,
    e: int,
    close_fill: Option<Seq<char>>,
    e2: int,
)
    requires
        0 <= i,
        tag_at(cs, i) == Some((name, false, fill, e)),
        tag_at(cs, j) == Some((name, true, close_fill, e2)),
        cs[i] == '<',
        name == "b"@ || name == "i"@ || name == "small"@ || (name == "span"@ && fill is Some),
        i < e <= j,
        cs[j] == '<',
        j < e2,
        forall|k: int| e <= k < j ==> #[trigger] cs[k] != '<' && cs[k] != '&' && cs[k] != '\n',
    ensures
        parse_from(cs, i, lines, stack, st, buf) == parse_from(
            cs,
            e2,
            flush(
                flush(lines, buf, st),
                cs.subrange(e, j),
                if name == "b"@ {
                    (true, st.1, st.2, st.3)
                } else if name == "i"@ {
                    (st.0, true, st.2, st.3)
                } else if name == "small"@ {
                    (st.0, st.1, st.2 + 1, st.3)
                } else {
                    (st.0, st.1, st.2, fill)
                },
            ),
            stack,
            st,
            Seq::empty(),
        ),
{
    reveal_strlit("br");
    reveal_strlit("b");
    reveal_strlit("i");
    reveal_strlit("small");
    reveal_strlit("span");
    let inner: StyleView = if name == "b"@ {
        (true, st.1, st.2, st.3)
    } else if name == "i"@ {
        (st.0, true, st.2, st.3)
    } else if name == "small"@ {
        (st.0, st.1, st.2 + 1, st.3)
    } else {
        (st.0, st.1, st.2, fill)
    };
    assert(name != "br"@) by {
        assert("br"@.len() == 2);
        assert("b"@.len() == 1 && "i"@.len() == 1 && "small"@.len() == 5 && "span"@.len() == 4);
    }
    let ls = flush(lines, buf, st);
    let opened = stack.push((name, st));
    assert(i < cs.len()) by {
        if i >= cs.len() {
            assert(tag_at(cs, i) is None);
        }
    }
    assert(parse_from(cs, i, lines, stack, st, buf) == parse_from(cs, e, ls, opened, inner, Seq::empty()));
    lemma_plain_segment(cs, e, j, ls, opened, inner, Seq::empty());
    let seg = cs.subrange(e, j);
    assert(Seq::<char>::empty() + seg =~= seg);
    assert(j < cs.len()) by {
        if j >= cs.len() {
            assert(tag_at(cs, j) is None);
        }
    }
    assert(opened.drop_last() =~= stack);
    assert(opened.last() == (name, st));
    assert(parse_from(cs, j, ls, opened, inner, seg) == parse_from(cs, e2, flush(ls, seg, inner), stack, st, Seq::empty()));
}

// ---------------------------------------------------------------------------
// The parser
// ---------------------------------------------------------------------------

fn clone_opt_string(o: &Option<String>) -> (r: Option<String>)
    ensures
        opt_string_view(r) == opt_string_view(*o),
{
    match o {
        Some(s) => Some(s.clone()),
        None => None,
    }
}

fn copy_style(s: &MarkupStyle) -> (r: MarkupStyle)
    ensures
        style_view(r) == style_view(*s),
        r.small_depth == s.small_depth,
{
    MarkupStyle { bold: s.bold, italic: s.italic, small_depth: s.small_depth, fill: clone_opt_string(&s.fill) }
}

/// Read an XML entity at `chars[p] == '&'`: the character and the number of
/// characters consumed.
fn read_entity(chars: &[char], p: usize) -> (r: Option<(char, usize)>)
    requires
        p < chars@.len(),
    ensures
        match r {
            Some((c, n)) => entity_at(chars@, p as int) == Some((c, n as int)) && 1 <= n && p + n <= chars@.len(),
            None => entity_at(chars@, p as int) is None,
        },
{
    let names: [&str; 4] = ["lt;", "gt;", "amp;", "quot;"];
    let glyphs: [char; 4] = ['<', '>', '&', '"'];
    let mut k: usize = 0;
    while k < 4
        invariant
            k <= 4,
            p < chars@.len(),
            names@ == seq!["lt;", "gt;", "amp;", "quot;"],
            glyphs@ == seq!['<', '>', '&', '"'],
            forall|j: int| 0 <= j < k ==> !entity_matches(chars@, p as int, (#[trigger] names@[j])@),
        decreases 4 - k,
    {
        let name = chars_of(names[k]);
        let n = name.len();
        if chars.len() - p > n && crate::strings::chars_occur_at(chars, &name, p + 1) {
            assert(entity_matches(chars@, p as int, names@[k as int]@));
            return Some((glyphs[k], n + 1));
        }
        assert(!entity_matches(chars@, p as int, names@[k as int]@));
        k = k + 1;
    }
    None
}

/// Read a recognised tag starting at `chars[p] == '<'`. Returns `None` when
/// what follows is not a supported tag name, or its `>` never comes, so the
/// `<` stays literal.
fn read_tag(chars: &[char], p: usize) -> (r: Option<ParsedTag>)
    requires
        p < chars@.len(),
    ensures
        match r {
            Some(t) => tag_at(chars@, p as int) == Some((t.name@, t.closing, opt_string_view(t.fill), p + t.consumed))
                && p + 2 <= p + t.consumed <= chars@.len(),
            None => tag_at(chars@, p as int) is None,
        },
{
    let ghost cs = chars@;
    let len = chars.len();
    let mut i = p + 1;
    let closing = i < len && chars[i] == '/';
    if closing {
        i = i + 1;
    }
    let name_start = i;
    while i < len && char_is_ascii_alpha(chars[i])
        invariant
            name_start <= i <= len,
            len == cs.len(),
            cs == chars@,
            forall|k: int| name_start <= k < i ==> is_ascii_alpha(#[trigger] cs[k]),
        decreases len - i,
    {
        i = i + 1;
    }
    proof {
        super::lint::lemma_alpha_end(cs, name_start as int, i as int);
    }
    let raw_name = string_of_range(chars, name_start, i);
    let raw_chars = chars_of(raw_name.as_str());
    let lower = chars_to_lower(&raw_chars);
    if !is_supported_tag(&lower) {
        return None;
    }
    let name = crate::strings::string_of(&lower);
    // Attributes: only `fill=` on `<span>`, bare or quoted.
    let ghost ne = i as int;
    let mut fill: Option<String> = None;
    while i < len && chars[i] != '>'
        invariant
            ne <= i <= len,
            len == cs.len(),
            cs == chars@,
            scan_attrs(cs, ne, None) == scan_attrs(cs, i as int, opt_string_view(fill)),
        decreases len + 2 - i,
    {
        if char_is_white(chars[i]) || chars[i] == '/' {
            i = i + 1;
            continue;
        }
        let attr_start = i;
        while i < len && chars[i] != '=' && chars[i] != '>'
            invariant
                attr_start <= i <= len,
                len == cs.len(),
                cs == chars@,
                attr_end(cs, attr_start as int) == attr_end(cs, i as int),
            decreases len - i,
        {
            i = i + 1;
        }
        proof {
            lemma_attr_end(cs, attr_start as int);
        }
        if !(i < len && chars[i] == '=') {
            continue;
        }
        let attr = string_of_range(chars, attr_start, i);
        i = i + 1;
        let quote = i < len && (chars[i] == '"' || chars[i] == '\'');
        if quote {
            i = i + 1;
        }
        let val_start = i;
        while i < len && chars[i] != '>' && !(quote && (chars[i] == '"' || chars[i] == '\'')) && !(!quote
            && char_is_white(chars[i]))
            invariant
                val_start <= i <= len,
                len == cs.len(),
                cs == chars@,
                value_end(cs, val_start as int, quote) == value_end(cs, i as int, quote),
            decreases len - i,
        {
            i = i + 1;
        }
        let value = string_of_range(chars, val_start, i);
        if quote && i < len {
            i = i + 1;
        }
        let attr_chars = chars_of(attr.as_str());
        let attr_lower = chars_to_lower(&attr_chars);
        let fill_word = chars_of("fill");
        if chars_eq(&attr_lower, &fill_word) {
            fill = Some(value);
        }
    }
    if !(i < len && chars[i] == '>') {
        return None;
    }
    Some(ParsedTag { name, closing, fill, consumed: i + 1 - p })
}

/// Flush the pending characters as a run under the current style.
fn flush_run(buf: &mut String, style: &MarkupStyle, lines: &mut Vec<Vec<TextRun>>)
    requires
        old(lines)@.len() >= 1,
    ensures
        final(lines)@.len() == old(lines)@.len(),
        lines_view(final(lines)@) == flush(lines_view(old(lines)@), old(buf)@, style_view(*style)),
        final(buf)@ == Seq::<char>::empty(),
{
    if buf.as_str().is_empty() {
        return;
    }
    let ghost before = lines@;
    let mut last = lines.pop().unwrap();
    let mut text = String::new();
    std::mem::swap(&mut text, buf);
    let run = TextRun {
        text,
        bold: style.bold,
        italic: style.italic,
        small_depth: style.small_depth,
        fill: clone_opt_string(&style.fill),
    };
    let ghost rv = run_view(run);
    let ghost last_before = last@;
    last.push(run);
    lines.push(last);
    proof {
        assert(lines@ =~= before.update(before.len() - 1, last));
        assert(line_view(last@) =~= line_view(last_before).push(rv));
        assert(lines_view(lines@) =~= lines_view(before).update(before.len() - 1, line_view(last_before).push(rv)));
    }
}

fn str_literal_eq(s: &String, lit: &str) -> (r: bool)
    ensures
        r == (s@ == lit@),
{
    crate::strings::str_eq(s.as_str(), lit)
}

/// Parse the label markup subset into lines of styled runs.
///
/// `<` only begins a tag when a recognised name follows it; otherwise it is
/// literal text, so `"T < confirmed_until"` and `"Vec<String>"` survive.
pub fn parse_markup(src: &str) -> (r: Result<RichText, MarkupError>)
    ensures
        match (r, markup_parse(src@)) {
            (Ok(rt), Ok(ls)) => lines_view(rt.lines@) == ls,
            (Err(e), Err((m, o))) => e.message@ == m && e.offset == o,
            _ => false,
        },
{
    let chars = chars_of(src);
    let ghost cs = chars@;
    let len = chars.len();
    let mut lines: Vec<Vec<TextRun>> = Vec::new();
    lines.push(Vec::new());
    let mut stack: Vec<(String, MarkupStyle)> = Vec::new();
    let mut style = MarkupStyle { bold: false, italic: false, small_depth: 0, fill: None };
    let mut buf = String::new();
    let mut i: usize = 0;
    proof {
        assert(line_view(lines@[0]@) =~= Seq::<RunView>::empty());
        assert(lines_view(lines@) =~= seq![Seq::<RunView>::empty()]);
        assert(stack_view(stack@) =~= Seq::<(Seq<char>, StyleView)>::empty());
        assert(buf@ =~= Seq::<char>::empty());
    }
    while i < len
        invariant
            i <= len,
            len == cs.len(),
            cs == src@,
            chars@ == cs,
            lines@.len() >= 1,
            stack@.len() <= i,
            style.small_depth <= stack@.len(),
            forall|k: int| 0 <= k < stack@.len() ==> (#[trigger] stack@[k]).1.small_depth <= k,
            markup_parse(cs) == parse_from(cs, i as int, lines_view(lines@), stack_view(stack@), style_view(style), buf@),
        decreases len - i,
    {
        let c = chars[i];
        if c == '\n' {
            flush_run(&mut buf, &style, &mut lines);
            let ghost lsf = lines_view(lines@);
            lines.push(Vec::new());
            assert(line_view(lines@[lines@.len() - 1]@) =~= Seq::<RunView>::empty());
            assert(lines_view(lines@) =~= lsf.push(Seq::empty()));
            assert(buf@ =~= Seq::<char>::empty());
            i = i + 1;
        } else if c == '&' {
            match read_entity(&chars, i) {
                Some((e, n)) => {
                    push_char(&mut buf, e);
                    i = i + n;
                },
                None => {
                    push_char(&mut buf, '&');
                    i = i + 1;
                },
            }
        } else if c != '<' {
            push_char(&mut buf, c);
            i = i + 1;
        } else {
            match read_tag(&chars, i) {
                None => {
                    push_char(&mut buf, '<');
                    i = i + 1;
                },
                Some(tag) => {
                    flush_run(&mut buf, &style, &mut lines);
                    assert(buf@ =~= Seq::<char>::empty());
                    let next = i + tag.consumed;
                    if tag.closing {
                        let n = stack.len();
                        if n > 0 && crate::strings::str_eq(stack[n - 1].0.as_str(), tag.name.as_str()) {
                            let ghost st_before = stack@;
                            let top = stack.pop().unwrap();
                            assert(stack_view(stack@) =~= stack_view(st_before).drop_last());
                            assert(style_view(top.1) == stack_view(st_before).last().1);
                            style = top.1;
                            i = next;
                        } else {
                            let mut message = String::new();
                            message.append("</");
                            message.append(tag.name.as_str());
                            message.append("> closes a tag that was never opened");
                            let before = string_of_range(&chars, 0, i);
                            let offset = before.as_str().len();
                            assert(before@ == cs.take(i as int));
                            return Err(MarkupError { message, offset });
                        }
                    } else if str_literal_eq(&tag.name, "br") {
                        let ghost lsf = lines_view(lines@);
                        lines.push(Vec::new());
                        assert(line_view(lines@[lines@.len() - 1]@) =~= Seq::<RunView>::empty());
                        assert(lines_view(lines@) =~= lsf.push(Seq::empty()));
                        i = next;
                    } else if str_literal_eq(&tag.name, "b") {
                        let saved = copy_style(&style);
                        let ghost sv = stack_view(stack@);
                        stack.push((String::from_str("b"), saved));
                        assert(stack_view(stack@) =~= sv.push(("b"@, style_view(style))));
                        style.bold = true;
                        i = next;
                    } else if str_literal_eq(&tag.name, "i") {
                        let saved = copy_style(&style);
                        let ghost sv = stack_view(stack@);
                        stack.push((String::from_str("i"), saved));
                        assert(stack_view(stack@) =~= sv.push(("i"@, style_view(style))));
                        style.italic = true;
                        i = next;
                    } else if str_literal_eq(&tag.name, "small") {
                        let saved = copy_style(&style);
                        let ghost sv = stack_view(stack@);
                        stack.push((String::from_str("small"), saved));
                        assert(stack_view(stack@) =~= sv.push(("small"@, style_view(style))));
                        style.small_depth = style.small_depth + 1;
                        i = next;
                    } else {
                        match tag.fill {
                            None => {
                                let message = String::from_str("<span> needs a fill, e.g. <span fill=accent-dark>");
                                let before = string_of_range(&chars, 0, i);
                                let offset = before.as_str().len();
                                assert(before@ == cs.take(i as int));
                                return Err(MarkupError { message, offset });
                            },
                            Some(f) => {
                                let saved = copy_style(&style);
                                let ghost sv = stack_view(stack@);
                                stack.push((String::from_str("span"), saved));
                                assert(stack_view(stack@) =~= sv.push(("span"@, style_view(style))));
                                style.fill = Some(f);
                                i = next;
                            },
                        }
                    }
                },
            }
        }
    }
    flush_run(&mut buf, &style, &mut lines);
    let n = stack.len();
    if n > 0 {
        let open = &stack[n - 1].0;
        let mut message = String::new();
        message.append("<");
        message.append(open.as_str());
        message.append("> is never closed; add </");
        message.append(open.as_str());
        message.append(">");
        return Err(MarkupError { message, offset: src.len() });
    }
    Ok(RichText { lines })
}

// ---------------------------------------------------------------------------
// Rich text
// ---------------------------------------------------------------------------

/// The text of a line: its runs' texts, end to end.
pub open spec fn line_text(l: Seq<RunView>) -> Seq<char>
    decreases l.len(),
{
    if l.len() == 0 {
        Seq::empty()
    } else {
        line_text(l.drop_last()) + l.last().0
    }
}

/// The markup stripped back out: line texts joined with a space.
pub open spec fn plain_text(ls: Seq<Seq<RunView>>) -> Seq<char> {
    join_seqs(ls.map_values(|l: Seq<RunView>| line_text(l)), " "@)
}

/// The style of a run: bold, italic, `<small>` depth and fill.
pub open spec fn run_style(r: RunView) -> StyleView {
    (r.1, r.2, r.3, r.4)
}

/// A line with each run merged into the one before it when both have the
/// same style.
pub open spec fn coalesced(rs: Seq<RunView>) -> Seq<RunView>
    decreases rs.len(),
{
    if rs.len() == 0 {
        Seq::empty()
    } else {
        let c = coalesced(rs.drop_last());
        let r = rs.last();
        if c.len() > 0 && run_style(c.last()) == run_style(r) {
            c.drop_last().push((c.last().0 + r.0, r.1, r.2, r.3, r.4))
        } else {
            c.push(r)
        }
    }
}

/// Merging runs keeps the line's text.
pub proof fn lemma_coalesce_keeps_text(rs: Seq<RunView>)
    ensures
        line_text(coalesced(rs)) == line_text(rs),
    decreases rs.len(),
{
    if rs.len() > 0 {
        lemma_coalesce_keeps_text(rs.drop_last());
        let c = coalesced(rs.drop_last());
        let r = rs.last();
        if c.len() > 0 && run_style(c.last()) == run_style(r) {
            let m = (c.last().0 + r.0, r.1, r.2, r.3, r.4);
            assert(c.drop_last().push(m).drop_last() =~= c.drop_last());
            assert(line_text(c) == line_text(c.drop_last()) + c.last().0);
            assert(line_text(c.drop_last().push(m)) == line_text(c.drop_last()) + m.0);
            assert(line_text(c.drop_last()) + (c.last().0 + r.0) =~= (line_text(c.drop_last()) + c.last().0) + r.0);
        } else {
            assert(c.push(r).drop_last() =~= c);
        }
    }
}

/// After merging, no two neighbouring runs share a style.
pub proof fn lemma_coalesce_neighbours_differ(rs: Seq<RunView>)
    ensures
        forall|i: int| 0 <= i < coalesced(rs).len() - 1 ==> run_style(#[trigger] coalesced(rs)[i]) != run_style(coalesced(rs)[i + 1]),
    decreases rs.len(),
{
    if rs.len() > 0 {
        lemma_coalesce_neighbours_differ(rs.drop_last());
        let c = coalesced(rs.drop_last());
        let r = rs.last();
        let n = coalesced(rs);
        if c.len() > 0 && run_style(c.last()) == run_style(r) {
            assert forall|i: int| 0 <= i < n.len() - 1 implies run_style(#[trigger] n[i]) != run_style(n[i + 1]) by {
                assert(n[i] == c[i]);
                if i + 1 < c.len() - 1 {
                    assert(n[i + 1] == c[i + 1]);
                } else {
                    assert(run_style(n[i + 1]) == run_style(c[i + 1]));
                }
            }
        } else {
            assert forall|i: int| 0 <= i < n.len() - 1 implies run_style(#[trigger] n[i]) != run_style(n[i + 1]) by {
                assert(n[i] == c[i]);
                if i + 1 < c.len() {
                    assert(n[i + 1] == c[i + 1]);
                }
            }
        }
    }
}

fn same_fill(a: &Option<String>, b: &Option<String>) -> (r: bool)
    ensures
        r == (opt_string_view(*a) == opt_string_view(*b)),
{
    match (a, b) {
        (Some(x), Some(y)) => crate::strings::str_eq(x.as_str(), y.as_str()),
        (None, None) => true,
        _ => false,
    }
}

/// Merge neighbouring runs of the same style into one run.
pub fn coalesce(line: &Vec<TextRun>) -> (r: Vec<TextRun>)
    ensures
        line_view(r@) == coalesced(line_view(line@)),
{
    let ghost lv = line_view(line@);
    let mut out: Vec<TextRun> = Vec::new();
    let mut i: usize = 0;
    assert(line_view(out@) =~= coalesced(lv.subrange(0, 0)));
    while i < line.len()
        invariant
            i <= line@.len(),
            lv == line_view(line@),
            line_view(out@) == coalesced(lv.subrange(0, i as int)),
        decreases line@.len() - i,
    {
        let ghost sub = lv.subrange(0, i + 1);
        assert(sub.drop_last() =~= lv.subrange(0, i as int));
        assert(sub.last() == run_view(line@[i as int]));
        let run = &line[i];
        let n = out.len();
        let merge = n > 0 && out[n - 1].bold == run.bold && out[n - 1].italic == run.italic
            && out[n - 1].small_depth == run.small_depth && same_fill(&out[n - 1].fill, &run.fill);
        let ghost before = out@;
        if merge {
            let mut last = out.pop().unwrap();
            last.text.append(run.text.as_str());
            let ghost lastv = run_view(last);
            out.push(last);
            proof {
                assert(out@ =~= before.drop_last().push(last));
                assert(line_view(before.drop_last()) =~= line_view(before).drop_last());
                assert(line_view(out@) =~= line_view(before).drop_last().push(lastv));
            }
        } else {
            out.push(TextRun {
                text: run.text.clone(),
                bold: run.bold,
                italic: run.italic,
                small_depth: run.small_depth,
                fill: clone_opt_string(&run.fill),
            });
            proof {
                assert(line_view(out@) =~= line_view(before).push(run_view(line@[i as int])));
            }
        }
        i = i + 1;
    }
    assert(lv.subrange(0, i as int) =~= lv);
    out
}

/// A plain string made into rich text reads back as the same string.
pub proof fn lemma_from_plain_reads_back(s: Seq<char>)
    ensures
        plain_text(seq![seq![(s, false, false, 0nat, None::<Seq<char>>)]]) == s,
{
    let l = seq![(s, false, false, 0nat, None::<Seq<char>>)];
    assert(l.drop_last() =~= Seq::<RunView>::empty());
    assert(line_text(l.drop_last()) =~= Seq::<char>::empty());
    assert(l.last().0 == s);
    assert(line_text(l) =~= s);
    let ls = seq![l];
    assert(ls.map_values(|x: Seq<RunView>| line_text(x)) =~= seq![s]);
}

impl TextRun {
    /// An unstyled run.
    pub fn plain(text: &str) -> (r: TextRun)
        ensures
            run_view(r) == (text@, false, false, 0nat, None::<Seq<char>>),
    {
        TextRun { text: String::from_str(text), bold: false, italic: false, small_depth: 0, fill: None }
    }
}

impl RichText {
    /// Treat a string as a single unstyled line.
    pub fn from_plain(s: &str) -> (r: RichText)
        ensures
            lines_view(r.lines@) == seq![seq![(s@, false, false, 0nat, None::<Seq<char>>)]],
    {
        let mut line: Vec<TextRun> = Vec::new();
        line.push(TextRun::plain(s));
        let mut lines: Vec<Vec<TextRun>> = Vec::new();
        lines.push(line);
        assert(line_view(lines@[0]@) =~= seq![(s@, false, false, 0nat, None::<Seq<char>>)]);
        assert(lines_view(lines@) =~= seq![seq![(s@, false, false, 0nat, None::<Seq<char>>)]]);
        RichText { lines }
    }

    /// The markup stripped back out, for messages that compare wording rather
    /// than styling. Lines join with a space so the result reads as one phrase.
    pub fn plain(&self) -> (r: String)
        ensures
            r@ == plain_text(lines_view(self.lines@)),
    {
        let ghost lv = lines_view(self.lines@);
        let mut texts: Vec<String> = Vec::new();
        let mut i: usize = 0;
        while i < self.lines.len()
            invariant
                i <= self.lines@.len(),
                lv == lines_view(self.lines@),
                views(texts@) == lv.subrange(0, i as int).map_values(|l: Seq<RunView>| line_text(l)),
            decreases self.lines@.len() - i,
        {
            let line = &self.lines[i];
            let mut t = String::new();
            let mut k: usize = 0;
            while k < line.len()
                invariant
                    k <= line@.len(),
                    t@ == line_text(line_view(line@).subrange(0, k as int)),
                decreases line@.len() - k,
            {
                let ghost sub = line_view(line@).subrange(0, k + 1);
                assert(sub.drop_last() =~= line_view(line@).subrange(0, k as int));
                t.append(line[k].text.as_str());
                k = k + 1;
            }
            assert(line_view(line@).subrange(0, k as int) =~= line_view(line@));
            let ghost before = texts@;
            texts.push(t);
            i = i + 1;
            assert(views(texts@) =~= lv.subrange(0, i as int).map_values(|l: Seq<RunView>| line_text(l))) by {
                assert(views(texts@) =~= views(before).push(line_text(lv[i - 1])));
            }
        }
        assert(lv.subrange(0, i as int) =~= lv);
        join_strings(texts.as_slice(), " ")
    }

    /// Whether no run holds any text.
    pub fn is_empty(&self) -> (r: bool)
        ensures
            r == forall|i: int, j: int|
                0 <= i < self.lines@.len() && 0 <= j < self.lines@[i]@.len() ==> (#[trigger] self.lines@[i]@[j]).text@.len() == 0,
    {
        let mut i: usize = 0;
        while i < self.lines.len()
            invariant
                i <= self.lines@.len(),
                forall|a: int, j: int|
                    0 <= a < i && 0 <= j < self.lines@[a]@.len() ==> (#[trigger] self.lines@[a]@[j]).text@.len() == 0,
            decreases self.lines@.len() - i,
        {
            let mut k: usize = 0;
            while k < self.lines[i].len()
                invariant
                    i < self.lines@.len(),
                    k <= self.lines@[i as int]@.len(),
                    forall|j: int| 0 <= j < k ==> (#[trigger] self.lines@[i as int]@[j]).text@.len() == 0,
                decreases self.lines@[i as int]@.len() - k,
            {
                if !self.lines[i][k].text.as_str().is_empty() {
                    return false;
                }
                k = k + 1;
            }
            i = i + 1;
        }
        true
    }
}

} // verus!
