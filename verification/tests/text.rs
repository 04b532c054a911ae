use agent_illustrator::layout::text::{coalesce, is_supported_tag, parse_markup, RichText, TextRun};

fn runs(rt: &RichText) -> Vec<Vec<(String, bool, bool, usize, Option<String>)>> {
    rt.lines
        .iter()
        .map(|l| l.iter().map(|r| (r.text.clone(), r.bold, r.italic, r.small_depth, r.fill.clone())).collect())
        .collect()
}

fn plain(t: &str) -> (String, bool, bool, usize, Option<String>) {
    (t.to_string(), false, false, 0, None)
}

#[test]
fn plain_text_is_one_run() {
    let rt = parse_markup("hello world").unwrap();
    assert_eq!(runs(&rt), vec![vec![plain("hello world")]]);
    assert_eq!(rt.plain(), "hello world");
}

#[test]
fn bold_and_italic_runs() {
    let rt = parse_markup("a <b>bold <i>both</i></b> z").unwrap();
    assert_eq!(
        runs(&rt),
        vec![vec![
            plain("a "),
            ("bold ".to_string(), true, false, 0, None),
            ("both".to_string(), true, true, 0, None),
            plain(" z"),
        ]]
    );
    assert_eq!(rt.plain(), "a bold both z");
}

#[test]
fn breaks_and_newlines_start_lines() {
    let rt = parse_markup("one<br>two\nthree").unwrap();
    assert_eq!(runs(&rt), vec![vec![plain("one")], vec![plain("two")], vec![plain("three")]]);
    assert_eq!(rt.plain(), "one two three");
}

#[test]
fn small_and_span_fill() {
    let rt = parse_markup("<small><small>x</small></small><span fill=accent-dark>y</span>").unwrap();
    assert_eq!(
        runs(&rt),
        vec![vec![
            ("x".to_string(), false, false, 2, None),
            ("y".to_string(), false, false, 0, Some("accent-dark".to_string())),
        ]]
    );
}

#[test]
fn entities_and_literal_angles() {
    let rt = parse_markup("T < x &amp; Vec<String> &lt;b&gt; &bogus;").unwrap();
    assert_eq!(runs(&rt), vec![vec![plain("T < x & Vec<String> <b> &bogus;")]]);
}

#[test]
fn unopened_close_is_an_error() {
    let e = parse_markup("ab</b>").unwrap_err();
    assert_eq!(e.message, "</b> closes a tag that was never opened");
    assert_eq!(e.offset, 2);
}

#[test]
fn mismatched_close_is_an_error() {
    let e = parse_markup("<b>x</i>").unwrap_err();
    assert_eq!(e.message, "</i> closes a tag that was never opened");
    assert_eq!(e.offset, 4);
}

#[test]
fn span_without_fill_is_an_error() {
    let e = parse_markup("x<span>y</span>").unwrap_err();
    assert_eq!(e.message, "<span> needs a fill, e.g. <span fill=accent-dark>");
    assert_eq!(e.offset, 1);
}

#[test]
fn unclosed_tag_is_an_error_at_the_end() {
    let e = parse_markup("<i>héllo").unwrap_err();
    assert_eq!(e.message, "<i> is never closed; add </i>");
    // the offset is the byte length of the source
    assert_eq!(e.offset, "<i>héllo".len());
}

#[test]
fn empty_text() {
    let rt = parse_markup("").unwrap();
    assert!(rt.is_empty());
    assert!(!RichText::from_plain("x").is_empty());
    assert_eq!(RichText::from_plain("a b").plain(), "a b");
    let r = TextRun::plain("q");
    assert_eq!((r.text.as_str(), r.bold, r.italic, r.small_depth), ("q", false, false, 0));
}

#[test]
fn supported_tags() {
    for t in ["br", "b", "i", "small", "span"] {
        assert!(is_supported_tag(&t.chars().collect::<Vec<char>>()));
    }
    assert!(!is_supported_tag(&"u".chars().collect::<Vec<char>>()));
    assert!(!is_supported_tag(&"B".chars().collect::<Vec<char>>()));
}

#[test]
fn coalesce_merges_neighbours_with_the_same_style() {
    let mut bold = TextRun::plain("c");
    bold.bold = true;
    let line = vec![TextRun::plain("a"), TextRun::plain("b"), bold, TextRun::plain("d"), TextRun::plain("e")];
    let out = coalesce(&line);
    let got: Vec<(String, bool)> = out.iter().map(|r| (r.text.clone(), r.bold)).collect();
    assert_eq!(got, vec![("ab".to_string(), false), ("c".to_string(), true), ("de".to_string(), false)]);
    assert!(coalesce(&vec![]).is_empty());
}

#[test]
fn error_offsets_are_bytes() {
    let e = parse_markup("é</b>").unwrap_err();
    assert_eq!(e.message, "</b> closes a tag that was never opened");
    assert_eq!(e.offset, 2);
    let e = parse_markup("né<span>x</span>").unwrap_err();
    assert_eq!(e.offset, 3);
}
