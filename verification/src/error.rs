//! Parse errors: their message, the tokens that were expected, and the
//! report shown to the user with the source in context.

use vstd::prelude::*;
use crate::ast::Span;
use crate::num::{num_text, Num};
use crate::strings::{contains_seq, decimal, join_seqs, join_strings, push_decimal, views};

verus! {

/// The tokens of the language, as parse errors name them.
#[derive(Debug)]
pub enum Token {
    Ident(String),
    String(String),
    Number(Num),
    HexColor(String),
    Arrow,
    ArrowBack,
    ArrowBoth,
    Dash,
    BraceOpen,
    BraceClose,
    BracketOpen,
    BracketClose,
    Comma,
    Colon,
    Left,
    Right,
    Top,
    Bottom,
    Center,
    CenterXProp,
    CenterYProp,
    HorizontalCenter,
    VerticalCenter,
    Rect,
    Circle,
    Ellipse,
    Path,
    Text,
    Row,
    Col,
    Group,
}

impl Clone for Token {
    fn clone(&self) -> (r: Self)
        ensures
            r == *self,
    {
        match self {
            Token::Ident(s) => Token::Ident(s.clone()),
            Token::String(s) => Token::String(s.clone()),
            Token::Number(n) => Token::Number(*n),
            Token::HexColor(s) => Token::HexColor(s.clone()),
            Token::Arrow => Token::Arrow,
            Token::ArrowBack => Token::ArrowBack,
            Token::ArrowBoth => Token::ArrowBoth,
            Token::Dash => Token::Dash,
            Token::BraceOpen => Token::BraceOpen,
            Token::BraceClose => Token::BraceClose,
            Token::BracketOpen => Token::BracketOpen,
            Token::BracketClose => Token::BracketClose,
            Token::Comma => Token::Comma,
            Token::Colon => Token::Colon,
            Token::Left => Token::Left,
            Token::Right => Token::Right,
            Token::Top => Token::Top,
            Token::Bottom => Token::Bottom,
            Token::Center => Token::Center,
            Token::CenterXProp => Token::CenterXProp,
            Token::CenterYProp => Token::CenterYProp,
            Token::HorizontalCenter => Token::HorizontalCenter,
            Token::VerticalCenter => Token::VerticalCenter,
            Token::Rect => Token::Rect,
            Token::Circle => Token::Circle,
            Token::Ellipse => Token::Ellipse,
            Token::Path => Token::Path,
            Token::Text => Token::Text,
            Token::Row => Token::Row,
            Token::Col => Token::Col,
            Token::Group => Token::Group,
        }
    }
}

/// What the parser expected at the point of an error.
#[derive(Debug)]
pub enum ExpectedPattern {
    /// A specific token.
    Token(Token),
    /// A labelled pattern.
    Label(String),
    /// A specific keyword.
    Identifier(String),
    /// Anything other than the end of input.
    Any,
    /// Something other than the provided input.
    SomethingElse,
    /// The end of input.
    EndOfInput,
}

/// Why the parser stopped.
#[derive(Debug)]
pub enum ErrorReason {
    /// An unexpected input was found (`None`: the end of input).
    ExpectedFound { expected: Vec<ExpectedPattern>, found: Option<Token> },
    /// A custom error.
    Custom(String),
}

/// A parse error.
#[derive(Debug)]
pub enum ParseError {
    Syntax { span: Span, message: String, expected: Vec<String> },
}

/// How a token is named in error messages.
pub open spec fn token_text(t: Token) -> Seq<char> {
    match t {
        Token::Ident(s) => "identifier '"@ + s@ + "'"@,
        Token::String(s) => "string \""@ + s@ + "\""@,
        Token::Number(n) => "number "@ + num_text(n),
        Token::HexColor(c) => "color "@ + c@,
        Token::Arrow => "'->'"@,
        Token::ArrowBack => "'<-'"@,
        Token::ArrowBoth => "'<->'"@,
        Token::Dash => "'--'"@,
        Token::BraceOpen => "'{'"@,
        Token::BraceClose => "'}'"@,
        Token::BracketOpen => "'['"@,
        Token::BracketClose => "']'"@,
        Token::Comma => "','"@,
        Token::Colon => "':'"@,
        Token::Left => "keyword 'left'"@,
        Token::Right => "keyword 'right'"@,
        Token::Top => "keyword 'top'"@,
        Token::Bottom => "keyword 'bottom'"@,
        Token::Center => "keyword 'center'"@,
        Token::CenterXProp => "keyword 'center_x'"@,
        Token::CenterYProp => "keyword 'center_y'"@,
        Token::Rect => "keyword 'rect'"@,
        Token::Circle => "keyword 'circle'"@,
        Token::Ellipse => "keyword 'ellipse'"@,
        Token::Path => "keyword 'path'"@,
        Token::Text => "keyword 'text'"@,
        Token::Row => "keyword 'row'"@,
        Token::Col => "keyword 'col'"@,
        Token::Group => "keyword 'group'"@,
        Token::HorizontalCenter => "HorizontalCenter"@,
        Token::VerticalCenter => "VerticalCenter"@,
    }
}

/// The keyword a reserved constraint keyword is spelled with.
pub open spec fn reserved_keyword(t: Token) -> Option<Seq<char>> {
    match t {
        Token::Left => Some("left"@),
        Token::Right => Some("right"@),
        Token::Top => Some("top"@),
        Token::Bottom => Some("bottom"@),
        Token::Center => Some("center"@),
        Token::CenterXProp => Some("center_x"@),
        Token::CenterYProp => Some("center_y"@),
        Token::HorizontalCenter => Some("horizontal_center"@),
        Token::VerticalCenter => Some("vertical_center"@),
        _ => None,
    }
}

/// The message of a parse error: a reserved keyword used as a name, the
/// unexpected token (or the end of input), or the custom message.
pub open spec fn reason_message(r: ErrorReason) -> Seq<char> {
    match r {
        ErrorReason::ExpectedFound { found, .. } => match found {
            Some(t) => match reserved_keyword(t) {
                Some(k) => "Cannot use '"@ + k + "' as a name - it's a reserved keyword for constraints"@,
                None => "Unexpected "@ + token_text(t),
            },
            None => "Unexpected "@ + "end of input"@,
        },
        ErrorReason::Custom(m) => m@,
    }
}

/// How an expected pattern is named; "something else" is not named.
pub open spec fn pattern_text(p: ExpectedPattern) -> Option<Seq<char>> {
    match p {
        ExpectedPattern::Token(t) => Some(token_text(t)),
        ExpectedPattern::Label(l) => Some(l@),
        ExpectedPattern::EndOfInput => Some("end of input"@),
        ExpectedPattern::Identifier(s) => Some("identifier '"@ + s@ + "'"@),
        ExpectedPattern::Any => Some("any token"@),
        ExpectedPattern::SomethingElse => None,
    }
}

/// The names of the expected patterns, in order.
pub open spec fn expected_texts(ps: Seq<ExpectedPattern>) -> Seq<Seq<char>>
    decreases ps.len(),
{
    if ps.len() == 0 {
        Seq::empty()
    } else {
        expected_texts(ps.drop_last()) + match pattern_text(ps.last()) {
            Some(t) => seq![t],
            None => Seq::empty(),
        }
    }
}

/// The expected patterns of a reason (a custom error expects nothing).
pub open spec fn reason_expected(r: ErrorReason) -> Seq<Seq<char>> {
    match r {
        ErrorReason::ExpectedFound { expected, .. } => expected_texts(expected@),
        ErrorReason::Custom(_) => Seq::empty(),
    }
}

/// The text of the report's label: the message, then the expected tokens.
pub open spec fn label_text(message: Seq<char>, expected: Seq<Seq<char>>) -> Seq<char> {
    if expected.len() == 0 {
        message
    } else {
        message + "\nExpected: "@ + join_seqs(expected, ", "@)
    }
}

/// Format a token for human-readable error messages.
pub fn format_token(tok: &Token) -> (r: String)
    ensures
        r@ == token_text(*tok),
{
    let mut s = String::new();
    match tok {
        Token::Ident(x) => {
            s.append("identifier '");
            s.append(x.as_str());
            s.append("'");
        },
        Token::String(x) => {
            s.append("string \"");
            s.append(x.as_str());
            s.append("\"");
        },
        Token::Number(n) => {
            s.append("number ");
            n.push_text(&mut s);
        },
        Token::HexColor(c) => {
            s.append("color ");
            s.append(c.as_str());
        },
        Token::Arrow => s.append("'->'"),
        Token::ArrowBack => s.append("'<-'"),
        Token::ArrowBoth => s.append("'<->'"),
        Token::Dash => s.append("'--'"),
        Token::BraceOpen => s.append("'{'"),
        Token::BraceClose => s.append("'}'"),
        Token::BracketOpen => s.append("'['"),
        Token::BracketClose => s.append("']'"),
        Token::Comma => s.append("','"),
        Token::Colon => s.append("':'"),
        Token::Left => s.append("keyword 'left'"),
        Token::Right => s.append("keyword 'right'"),
        Token::Top => s.append("keyword 'top'"),
        Token::Bottom => s.append("keyword 'bottom'"),
        Token::Center => s.append("keyword 'center'"),
        Token::CenterXProp => s.append("keyword 'center_x'"),
        Token::CenterYProp => s.append("keyword 'center_y'"),
        Token::Rect => s.append("keyword 'rect'"),
        Token::Circle => s.append("keyword 'circle'"),
        Token::Ellipse => s.append("keyword 'ellipse'"),
        Token::Path => s.append("keyword 'path'"),
        Token::Text => s.append("keyword 'text'"),
        Token::Row => s.append("keyword 'row'"),
        Token::Col => s.append("keyword 'col'"),
        Token::Group => s.append("keyword 'group'"),
        Token::HorizontalCenter => s.append("HorizontalCenter"),
        Token::VerticalCenter => s.append("VerticalCenter"),
    }
    assert(s@ =~= token_text(*tok));
    s
}

fn reserved_keyword_exec(t: &Token) -> (r: Option<&'static str>)
    ensures
        match r {
            Some(k) => reserved_keyword(*t) == Some(k@),
            None => reserved_keyword(*t) is None,
        },
{
    match t {
        Token::Left => Some("left"),
        Token::Right => Some("right"),
        Token::Top => Some("top"),
        Token::Bottom => Some("bottom"),
        Token::Center => Some("center"),
        Token::CenterXProp => Some("center_x"),
        Token::CenterYProp => Some("center_y"),
        Token::HorizontalCenter => Some("horizontal_center"),
        Token::VerticalCenter => Some("vertical_center"),
        _ => None,
    }
}

impl ParseError {
    /// The error for a parser stop: its message, the names of the expected
    /// patterns, and the span.
    pub fn from_reason(reason: &ErrorReason, span: Span) -> (r: ParseError)
        ensures
            r matches ParseError::Syntax { span: s, message, expected } && s == span && message@ == reason_message(*reason)
                && views(expected@) == reason_expected(*reason),
    {
        let mut message = String::new();
        let mut expected: Vec<String> = Vec::new();
        match reason {
            ErrorReason::ExpectedFound { expected: patterns, found } => {
                match found {
                    Some(t) => match reserved_keyword_exec(t) {
                        Some(k) => {
                            message.append("Cannot use '");
                            message.append(k);
                            message.append("' as a name - it's a reserved keyword for constraints");
                        },
                        None => {
                            message.append("Unexpected ");
                            let f = format_token(t);
                            message.append(f.as_str());
                        },
                    },
                    None => {
                        message.append("Unexpected ");
                        message.append("end of input");
                    },
                }
                let mut i: usize = 0;
                while i < patterns.len()
                    invariant
                        i <= patterns@.len(),
                        views(expected@) == expected_texts(patterns@.subrange(0, i as int)),
                    decreases patterns@.len() - i,
                {
                    let ghost sub = patterns@.subrange(0, i + 1);
                    assert(sub.drop_last() =~= patterns@.subrange(0, i as int));
                    assert(sub.last() == patterns@[i as int]);
                    let ghost before = views(expected@);
                    match &patterns[i] {
                        ExpectedPattern::Token(t) => {
                            expected.push(format_token(t));
                        },
                        ExpectedPattern::Label(l) => {
                            expected.push(l.clone());
                        },
                        ExpectedPattern::EndOfInput => {
                            expected.push(String::from_str("end of input"));
                        },
                        ExpectedPattern::Identifier(s) => {
                            let mut t = String::new();
                            t.append("identifier '");
                            t.append(s.as_str());
                            t.append("'");
                            expected.push(t);
                        },
                        ExpectedPattern::Any => {
                            expected.push(String::from_str("any token"));
                        },
                        ExpectedPattern::SomethingElse => {},
                    }
                    assert(views(expected@) =~= expected_texts(sub));
                    i = i + 1;
                }
                assert(patterns@.subrange(0, i as int) =~= patterns@);
            },
            ErrorReason::Custom(m) => {
                message.append(m.as_str());
                assert(views(expected@) =~= Seq::<Seq<char>>::empty());
            },
        }
        assert(message@ =~= reason_message(*reason));
        ParseError::Syntax { span, message, expected }
    }

    /// The one-line text of the error: `Parse error at start..end: message`.
    pub fn to_string(&self) -> (r: String)
        ensures
            match self {
                ParseError::Syntax { span, message, .. } => r@ == "Parse error at "@ + decimal(span.start as nat)
                    + ".."@ + decimal(span.end as nat) + ": "@ + message@,
            },
    {
        match self {
            ParseError::Syntax { span, message, .. } => {
                let mut s = String::new();
                s.append("Parse error at ");
                push_decimal(&mut s, span.start as u64);
                s.append("..");
                push_decimal(&mut s, span.end as u64);
                s.append(": ");
                s.append(message.as_str());
                assert(s@ =~= "Parse error at "@ + decimal(span.start as nat) + ".."@ + decimal(span.end as nat) + ": "@ + message@);
                s
            },
        }
    }

    /// The text of the report's label: the message, then the expected tokens.
    pub fn label_message(&self) -> (r: String)
        ensures
            match self {
                ParseError::Syntax { message, expected, .. } => r@ == label_text(message@, views(expected@)),
            },
    {
        match self {
            ParseError::Syntax { message, expected, .. } => {
                let mut s = String::new();
                s.append(message.as_str());
                if expected.len() > 0 {
                    s.append("\nExpected: ");
                    let joined = join_strings(expected.as_slice(), ", ");
                    s.append(joined.as_str());
                }
                assert(s@ =~= label_text(message@, views(expected@)));
                s
            },
        }
    }

    /// Format the error with source context: a report headed by the message,
    /// with a label over the span carrying the message and the expected tokens.
    pub fn format(&self, source: &str, filename: &str) -> (r: String)
        requires
            match self {
                ParseError::Syntax { span, .. } => span.start <= span.end,
            },
        ensures
            match self {
                ParseError::Syntax { span, message, expected } => {
                    &&& contains_seq(r@, message@)
                    &&& span.start < span.end <= source@.len() ==> {
                        &&& contains_seq(r@, location_text(filename@, source@, span.start as int))
                        &&& contains_seq(r@, label_text(message@, views(expected@)))
                    }
                },
            },
    {
        let label = self.label_message();
        match self {
            ParseError::Syntax { span, message, .. } => render_report(
                filename,
                span.start,
                span.end,
                message.as_str(),
                label.as_str(),
                source,
            ),
        }
    }
}

/// A character that ends a line of a report's source: carriage return, line
/// feed, vertical tab, form feed, next line, line and paragraph separators.
pub open spec fn is_line_break(c: char) -> bool {
    c == '\r' || c == '\n' || c == '\x0B' || c == '\x0C' || c == '\u{0085}' || c == '\u{2028}'
        || c == '\u{2029}'
}

/// A line of `cs` starts at position `p`: the first position, or one just
/// after a line break, except the line feed of a carriage return and line
/// feed pair, which stays on the line it ends.
pub open spec fn line_starts_at(cs: Seq<char>, p: int) -> bool {
    p == 0 || (0 < p < cs.len() && is_line_break(cs[p - 1]) && !(cs[p - 1] == '\r' && cs[p] == '\n'))
}

/// The zero-based line of position `k` in `cs`.
pub open spec fn line_of(cs: Seq<char>, k: int) -> nat
    decreases k,
{
    if k <= 0 {
        0
    } else {
        line_of(cs, k - 1) + if line_starts_at(cs, k) { 1nat } else { 0nat }
    }
}

/// The zero-based column of position `k` in `cs`: how far it lies past the
/// start of its line.
pub open spec fn col_of(cs: Seq<char>, k: int) -> nat
    decreases k,
{
    if k <= 0 {
        0
    } else if line_starts_at(cs, k) {
        0
    } else {
        col_of(cs, k - 1) + 1
    }
}

/// The location a report gives for position `k` of `source`:
/// `file:line:column`, both counted from one.
pub open spec fn location_text(filename: Seq<char>, source: Seq<char>, k: int) -> Seq<char> {
    filename + ":"@ + decimal(line_of(source, k) + 1) + ":"@ + decimal(col_of(source, k) + 1)
}

/// Renders an error report with `ariadne`: `Report::build` of kind error at
/// `start`, the message, one red label over `start..end` with the label text,
/// written for `source` under `filename`.
/// Trusted: `Label::new` panics on a backwards span, which `requires` rules
/// out. The report's header line is the kind and then the message, and the
/// message itself is written without colour codes, so the text contains the
/// message. A label over a nonempty span inside the source (counted in
/// characters) is drawn: the source's location line names the file, then
/// `:line:col` of `start` (ariadne splits lines at the breaks of
/// `is_line_break`, a carriage return and line feed counting as one), and the
/// label text follows its arrow, both without colour codes. A label outside
/// the source is skipped, so then neither is promised.
/// Nothing more is stated of the text: elsewhere it carries colour codes unless
/// colouring is turned off process-wide, so it depends on more than the
/// arguments.
#[verifier::external_body]
fn render_report(filename: &str, start: usize, end: usize, message: &str, label: &str, source: &str) -> (r: String)
    requires
        start <= end,
    ensures
        contains_seq(r@, message@),
        start < end <= source@.len() ==> contains_seq(r@, location_text(filename@, source@, start as int)),
        start < end <= source@.len() ==> contains_seq(r@, label@),
{
    let mut buf: Vec<u8> = Vec::new();
    let _ = ariadne::Report::build(ariadne::ReportKind::Error, filename, start)
        .with_message(message)
        .with_label(ariadne::Label::new((filename, start..end)).with_message(label).with_color(ariadne::Color::Red))
        .finish()
        .write((filename, ariadne::Source::from(source)), &mut buf);
    String::from_utf8_lossy(&buf).into_owned()
}

} // verus!
