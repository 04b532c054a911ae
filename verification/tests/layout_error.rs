use agent_illustrator::ast::Span;
use agent_illustrator::layout::error::LayoutError;

#[test]
fn test_undefined_identifier_display() {
    let err = LayoutError::undefined("foo", Span::new(0, 3), vec!["bar".to_string()]);
    assert!(err.to_string().contains("foo"));
}

#[test]
fn test_conflicting_constraints_display() {
    let err = LayoutError::conflicting(
        vec!["a below b".to_string(), "a above b".to_string()],
        "cannot satisfy both",
    );
    assert!(err.to_string().contains("conflicting"));
}

#[test]
fn test_circular_constraint_display() {
    let err = LayoutError::circular(vec!["a".to_string(), "b".to_string(), "a".to_string()]);
    assert!(err.to_string().contains("a -> b -> a"));
}

#[test]
fn undefined_identifier_exact_text() {
    let err = LayoutError::undefined("foo", Span::new(0, 3), vec![]);
    assert_eq!(err.to_string(), "undefined identifier 'foo'");
}
