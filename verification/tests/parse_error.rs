use agent_illustrator::ast::Span;
use agent_illustrator::error::{format_token, ErrorReason, ExpectedPattern, ParseError, Token};
use agent_illustrator::num::Num;

#[test]
fn tokens_are_named_for_humans() {
    assert_eq!(format_token(&Token::Ident("box".to_string())), "identifier 'box'");
    assert_eq!(format_token(&Token::String("hi".to_string())), "string \"hi\"");
    assert_eq!(format_token(&Token::Number(Num::from_milli(2500))), "number 2.5");
    assert_eq!(format_token(&Token::Number(Num::from_int(-3))), "number -3");
    assert_eq!(format_token(&Token::HexColor("#fff".to_string())), "color #fff");
    assert_eq!(format_token(&Token::Arrow), "'->'");
    assert_eq!(format_token(&Token::BraceOpen), "'{'");
    assert_eq!(format_token(&Token::Rect), "keyword 'rect'");
    assert_eq!(format_token(&Token::CenterXProp), "keyword 'center_x'");
}

#[test]
fn unexpected_token_with_expected_list() {
    let reason = ErrorReason::ExpectedFound {
        expected: vec![
            ExpectedPattern::Token(Token::BraceClose),
            ExpectedPattern::Label("statement".to_string()),
            ExpectedPattern::SomethingElse,
            ExpectedPattern::EndOfInput,
        ],
        found: Some(Token::Comma),
    };
    let e = ParseError::from_reason(&reason, Span::new(3, 4));
    match &e {
        ParseError::Syntax { span, message, expected } => {
            assert_eq!(*span, Span::new(3, 4));
            assert_eq!(message, "Unexpected ','");
            assert_eq!(expected, &vec!["'}'".to_string(), "statement".to_string(), "end of input".to_string()]);
        }
    }
    assert_eq!(e.label_message(), "Unexpected ','\nExpected: '}', statement, end of input");
    assert_eq!(e.to_string(), "Parse error at 3..4: Unexpected ','");
}

#[test]
fn reserved_keyword_used_as_a_name() {
    let reason = ErrorReason::ExpectedFound { expected: vec![], found: Some(Token::Left) };
    let e = ParseError::from_reason(&reason, Span::new(0, 4));
    assert_eq!(e.label_message(), "Cannot use 'left' as a name - it's a reserved keyword for constraints");
}

#[test]
fn unexpected_end_of_input() {
    let reason = ErrorReason::ExpectedFound {
        expected: vec![ExpectedPattern::Identifier("row".to_string()), ExpectedPattern::Any],
        found: None,
    };
    let e = ParseError::from_reason(&reason, Span::new(9, 9));
    assert_eq!(e.label_message(), "Unexpected end of input\nExpected: identifier 'row', any token");
}

#[test]
fn custom_reason_keeps_its_text() {
    let e = ParseError::from_reason(&ErrorReason::Custom("bad thing".to_string()), Span::new(1, 2));
    assert_eq!(e.label_message(), "bad thing");
}

#[test]
fn report_mentions_message_and_file() {
    let reason = ErrorReason::ExpectedFound { expected: vec![], found: Some(Token::Comma) };
    let e = ParseError::from_reason(&reason, Span::new(5, 6));
    let report = e.format("rect a, rect b", "input.ail");
    assert!(report.contains("Unexpected ','"));
    assert!(report.contains("input.ail:"));
    assert!(report.contains(&e.label_message()));
}

#[test]
fn report_locates_the_span() {
    let reason = ErrorReason::ExpectedFound { expected: vec![], found: Some(Token::Comma) };
    // the comma sits on the second line (after a CR LF pair), seventh column
    let source = "rect a\r\nrect b, rect c";
    let e = ParseError::from_reason(&reason, Span::new(14, 15));
    let report = e.format(source, "input.ail");
    assert!(report.contains("input.ail:2:7"));
}
