use agent_illustrator::layout::{find_similar, levenshtein_distance};

#[test]
fn test_levenshtein_same() {
    assert_eq!(levenshtein_distance("hello", "hello"), 0);
}

#[test]
fn test_levenshtein_one_off() {
    assert_eq!(levenshtein_distance("server", "servr"), 1);
    assert_eq!(levenshtein_distance("server", "servar"), 1);
}

#[test]
fn test_levenshtein_different() {
    assert_eq!(levenshtein_distance("cat", "dog"), 3);
}

#[test]
fn test_find_similar() {
    let defined = vec!["server".to_string(), "client".to_string(), "database".to_string()];
    let suggestions = find_similar(&defined, "servr", 2);
    assert!(suggestions.contains(&"server".to_string()));
}

use agent_illustrator::ast::{
    AnchorReference, ConnectionDecl, ConnectionDirection, ConstraintDecl, Document, GroupDecl, Identifier,
    PositionRelation, ShapeDecl, ShapeType, Span, Spanned, Statement,
};
use agent_illustrator::layout::error::LayoutError;
use agent_illustrator::layout::{collect_defined_identifiers, validate_references};

fn at<T>(node: T, start: usize) -> Spanned<T> {
    Spanned { node, span: Span::new(start, start + 1) }
}

fn ident(name: &str, start: usize) -> Spanned<Identifier> {
    at(Identifier(name.to_string()), start)
}

fn rect(name: &str) -> Spanned<Statement> {
    at(Statement::Shape(ShapeDecl { shape_type: at(ShapeType::Rectangle, 0), name: Some(ident(name, 0)), modifiers: vec![] }), 0)
}

fn connect(from: &str, to: &str, start: usize) -> Spanned<Statement> {
    at(
        Statement::Connection(vec![ConnectionDecl {
            from: AnchorReference { element: ident(from, start), anchor: None },
            to: AnchorReference { element: ident(to, start + 10), anchor: None },
            direction: ConnectionDirection::Forward,
            modifiers: vec![],
        }]),
        start,
    )
}

fn sample() -> Vec<Spanned<Statement>> {
    vec![
        rect("server"),
        at(
            Statement::Group(GroupDecl {
                name: Some(ident("cluster", 0)),
                children: vec![rect("worker"), rect("server")],
                modifiers: vec![],
                anchors: vec![],
                is_template_instance: false,
            }),
            0,
        ),
    ]
}

#[test]
fn defined_identifiers_in_first_definition_order() {
    let doc = Document { statements: sample() };
    assert_eq!(collect_defined_identifiers(&doc), vec!["server".to_string(), "cluster".to_string(), "worker".to_string()]);
}

#[test]
fn references_to_defined_elements_pass() {
    let mut statements = sample();
    statements.push(connect("server", "worker", 50));
    statements.push(at(
        Statement::Constraint(ConstraintDecl {
            subject: ident("worker", 70),
            relation: Some(at(PositionRelation::Below, 70)),
            anchor: Some(ident("cluster", 80)),
            modifiers: vec![],
        }),
        70,
    ));
    assert!(validate_references(&Document { statements }).is_ok());
}

#[test]
fn first_undefined_reference_is_reported_with_suggestions() {
    let mut statements = sample();
    statements.push(connect("servr", "nowhere", 50));
    match validate_references(&Document { statements }) {
        Err(LayoutError::UndefinedIdentifier { name, span, suggestions }) => {
            assert_eq!(name, "servr");
            assert_eq!(span, Span::new(50, 51));
            assert_eq!(suggestions, vec!["server".to_string()]);
        }
        other => panic!("expected an undefined identifier, got {:?}", other),
    }
}

#[test]
fn levenshtein_is_symmetric_and_counts_insertions() {
    assert_eq!(levenshtein_distance("", "abc"), 3);
    assert_eq!(levenshtein_distance("abc", ""), 3);
    assert_eq!(levenshtein_distance("kitten", "sitting"), 3);
    assert_eq!(levenshtein_distance("sitting", "kitten"), 3);
}

#[test]
fn find_similar_keeps_order_and_skips_target() {
    let defined = vec!["aa".to_string(), "zz".to_string(), "ab".to_string(), "ba".to_string()];
    // the target itself is never suggested; ties keep their order
    assert_eq!(find_similar(&defined, "aa", 1), vec!["ab".to_string(), "ba".to_string()]);
    assert!(find_similar(&defined, "qqqq", 1).is_empty());
}

#[test]
fn find_similar_names_each_once() {
    let defined = vec!["server".to_string(), "sever".to_string(), "server".to_string()];
    assert_eq!(find_similar(&defined, "servr", 2), vec!["server".to_string(), "sever".to_string()]);
}

#[test]
fn distance_zero_only_for_equal_texts() {
    assert_eq!(levenshtein_distance("abc", "abc"), 0);
    assert!(levenshtein_distance("abc", "abd") > 0);
    // at least the difference of the lengths
    assert!(levenshtein_distance("a", "abcd") >= 3);
}
