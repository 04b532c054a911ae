use agent_illustrator::ast::{
    ConstrainDecl, ConstraintExpr, ConstraintProperty, Document, ElementPath, GroupDecl, Identifier,
    KeyframeDecl, KeyframeOp, LayoutDecl, LayoutType, PropertyRef, ShapeDecl, ShapeType, Span, Spanned,
    Statement, StyleKey, StyleModifier, StyleValue,
};
use agent_illustrator::layout::lint::{
    check_crowded_layouts, check_label_markup, dark_fill_by_name, check_overridden_constraints, element_display_name, check_redundant_constants, check_unanimatable_transform_keys,
    check_unknown_colors, check_unknown_modifiers, dedup_warnings, format_constraint_expr,
    is_dark_css_variable, merge_frame_warnings, parse_grid_cell_id, sorted_pair, style_key_name,
    unrecognised_tags, LintCategory, LintWarning,
};
use agent_illustrator::num::Num;

fn sp<T>(node: T) -> Spanned<T> {
    Spanned { node, span: Span::new(0, 0) }
}

fn ident(name: &str) -> Spanned<Identifier> {
    sp(Identifier(name.to_string()))
}

fn prop(elem: &str, p: ConstraintProperty) -> PropertyRef {
    PropertyRef {
        element: sp(ElementPath::simple(Identifier(elem.to_string()), Span::new(0, 0))),
        property: sp(p),
    }
}

// constrain {elem}.{prop} = {value}
fn make_constant_constraint(elem: &str, p: ConstraintProperty, value: i32) -> Spanned<Statement> {
    sp(Statement::Constrain(ConstrainDecl {
        expr: ConstraintExpr::Constant { left: prop(elem, p), value: Num::from_int(value) },
        name: None,
    }))
}

fn make_doc(statements: Vec<Spanned<Statement>>) -> Document {
    Document { statements }
}

fn shape(name: &str, modifiers: Vec<Spanned<StyleModifier>>) -> Spanned<Statement> {
    sp(Statement::Shape(ShapeDecl { shape_type: sp(ShapeType::Rectangle), name: Some(ident(name)), modifiers }))
}

fn modifier(key: StyleKey, value: StyleValue) -> Spanned<StyleModifier> {
    sp(StyleModifier { key: sp(key), value: sp(value) })
}

fn warning(category: LintCategory, message: &str) -> LintWarning {
    LintWarning { category, message: message.to_string(), frames: vec![], pair: None }
}

#[test]
fn test_redundant_constants_detected() {
    let doc = make_doc(vec![
        make_constant_constraint("a", ConstraintProperty::CenterY, 200),
        make_constant_constraint("b", ConstraintProperty::CenterY, 200),
    ]);
    let mut warnings = Vec::new();
    check_redundant_constants(&doc, &mut warnings);
    assert_eq!(warnings.len(), 1);
    assert_eq!(warnings[0].category.to_string(), "redundant-constant");
    assert!(warnings[0].message.contains("center_y"));
}

#[test]
fn test_different_values_no_warning() {
    let doc = make_doc(vec![
        make_constant_constraint("a", ConstraintProperty::CenterY, 200),
        make_constant_constraint("b", ConstraintProperty::CenterY, 300),
    ]);
    let mut warnings = Vec::new();
    check_redundant_constants(&doc, &mut warnings);
    assert!(warnings.is_empty());
}

#[test]
fn test_different_properties_no_warning() {
    let doc = make_doc(vec![
        make_constant_constraint("a", ConstraintProperty::CenterX, 200),
        make_constant_constraint("b", ConstraintProperty::CenterY, 200),
    ]);
    let mut warnings = Vec::new();
    check_redundant_constants(&doc, &mut warnings);
    assert!(warnings.is_empty());
}

#[test]
fn test_three_elements_one_warning() {
    let doc = make_doc(vec![
        make_constant_constraint("a", ConstraintProperty::CenterX, 100),
        make_constant_constraint("b", ConstraintProperty::CenterX, 100),
        make_constant_constraint("c", ConstraintProperty::CenterX, 100),
    ]);
    let mut warnings = Vec::new();
    check_redundant_constants(&doc, &mut warnings);
    assert_eq!(warnings.len(), 1);
    assert!(warnings[0].message.contains("3 elements"));
}

#[test]
fn test_single_element_no_warning() {
    let doc = make_doc(vec![make_constant_constraint("a", ConstraintProperty::CenterX, 100)]);
    let mut warnings = Vec::new();
    check_redundant_constants(&doc, &mut warnings);
    assert!(warnings.is_empty());
}

#[test]
fn test_inside_group() {
    let doc = make_doc(vec![sp(Statement::Group(GroupDecl {
        name: Some(ident("g")),
        children: vec![
            make_constant_constraint("a", ConstraintProperty::CenterY, 50),
            make_constant_constraint("b", ConstraintProperty::CenterY, 50),
        ],
        modifiers: vec![],
        anchors: vec![],
        is_template_instance: false,
    }))]);
    let mut warnings = Vec::new();
    check_redundant_constants(&doc, &mut warnings);
    assert_eq!(warnings.len(), 1);
    assert!(warnings[0].message.contains("center_y"));
}

#[test]
fn redundant_constant_message_for_a_pair() {
    let doc = make_doc(vec![
        make_constant_constraint("a", ConstraintProperty::X, 7),
        make_constant_constraint("b", ConstraintProperty::X, 7),
        make_constant_constraint("a", ConstraintProperty::X, 7),
    ]);
    let mut warnings = vec![warning(LintCategory::Overlap, "kept")];
    check_redundant_constants(&doc, &mut warnings);
    assert_eq!(warnings.len(), 2);
    assert_eq!(warnings[0].message, "kept");
    assert_eq!(warnings[1].message, "consider \"constrain b.x = a.x\" instead of repeating the constant 7");
    assert!(warnings[1].frames.is_empty());
}

#[test]
fn category_names_round_trip() {
    for c in LintCategory::all() {
        assert_eq!(LintCategory::parse(&c.name()), Some(c));
    }
    assert_eq!(LintCategory::parse("no-such-check"), None);
    assert_eq!(LintCategory::all().len(), 15);
    assert!(LintCategory::all_names().starts_with("overlap, containment"));
}

#[test]
fn sorted_pairs_strip_quotes() {
    assert_eq!(sorted_pair("\"b\"", "a"), ("a".to_string(), "b".to_string()));
    assert_eq!(sorted_pair("x", "y"), ("x".to_string(), "y".to_string()));
    assert_eq!(sorted_pair("\"zeta\"", "alpha"), sorted_pair("alpha", "zeta"));
}

#[test]
fn grid_cell_ids() {
    assert_eq!(
        parse_grid_cell_id("board__cell_2_3"),
        Some(("board".to_string(), "2".to_string(), "3".to_string()))
    );
    assert_eq!(parse_grid_cell_id("board_cell_2_3"), None);
    assert_eq!(parse_grid_cell_id("board__cell_23"), None);
}

#[test]
fn dark_variables() {
    assert!(is_dark_css_variable("--accent-dark"));
    assert!(is_dark_css_variable("--text-1"));
    assert!(!is_dark_css_variable("--accent-light"));
}

#[test]
fn key_names() {
    assert_eq!(style_key_name(&StyleKey::StrokeWidth), "stroke_width");
    assert_eq!(style_key_name(&StyleKey::Custom("glow".to_string())), "glow");
}

#[test]
fn crowded_rows_are_reported() {
    let children: Vec<Spanned<Statement>> = (0..9).map(|i| shape(&format!("s{}", i), vec![])).collect();
    let doc = make_doc(vec![sp(Statement::Layout(LayoutDecl {
        layout_type: sp(LayoutType::Row),
        name: Some(ident("r")),
        children,
        modifiers: vec![],
    }))]);
    let mut warnings = Vec::new();
    check_crowded_layouts(&doc, &mut warnings);
    assert_eq!(warnings.len(), 1);
    assert_eq!(warnings[0].category, LintCategory::CrowdedLayout);
    assert_eq!(
        warnings[0].message,
        "row \"r\" has 9 children; for >8 elements, consider using group with constraints instead"
    );
}

#[test]
fn eight_children_are_fine() {
    let children: Vec<Spanned<Statement>> = (0..8).map(|i| shape(&format!("s{}", i), vec![])).collect();
    let doc = make_doc(vec![sp(Statement::Layout(LayoutDecl {
        layout_type: sp(LayoutType::Column),
        name: None,
        children,
        modifiers: vec![],
    }))]);
    let mut warnings = Vec::new();
    check_crowded_layouts(&doc, &mut warnings);
    assert!(warnings.is_empty());
}

#[test]
fn unknown_modifiers_are_reported() {
    let doc = make_doc(vec![shape(
        "box",
        vec![
            modifier(StyleKey::Custom("colour".to_string()), StyleValue::Keyword("red".to_string())),
            modifier(StyleKey::Custom("padding".to_string()), StyleValue::Number { value: Num::from_int(4), unit: None }),
        ],
    )]);
    let mut warnings = Vec::new();
    check_unknown_modifiers(&doc, &mut warnings);
    assert_eq!(warnings.len(), 1);
    assert_eq!(warnings[0].category, LintCategory::UnknownModifier);
    assert_eq!(
        warnings[0].message,
        "unknown modifier \"colour\" on \"box\" is ignored; check the spelling against --grammar"
    );
}

#[test]
fn unanimatable_transform_keys_are_reported() {
    let kf = KeyframeDecl {
        name: sp("step".to_string()),
        operations: vec![sp(KeyframeOp::Transform {
            target: ident("box"),
            modifiers: vec![
                modifier(StyleKey::Label, StyleValue::String("hi".to_string())),
                modifier(StyleKey::X, StyleValue::Number { value: Num::from_int(1), unit: None }),
            ],
        })],
        no_resolve: false,
    };
    let doc = make_doc(vec![sp(Statement::Keyframe(kf))]);
    let mut warnings = Vec::new();
    check_unanimatable_transform_keys(&doc, &mut warnings);
    assert_eq!(warnings.len(), 1);
    assert!(warnings[0].message.contains("\"label\" on \"box\" in keyframe \"step\" cannot be animated"));
}

#[test]
fn unknown_colors_are_reported() {
    let doc = make_doc(vec![shape(
        "box",
        vec![
            modifier(StyleKey::Fill, StyleValue::Keyword("Red".to_string())),
            modifier(StyleKey::Stroke, StyleValue::Keyword("blurple".to_string())),
        ],
    )]);
    let mut warnings = Vec::new();
    check_unknown_colors(&doc, &mut warnings);
    assert_eq!(warnings.len(), 1);
    assert!(warnings[0].message.starts_with("stroke: \"blurple\" on \"box\""));
}

#[test]
fn label_markup_tags() {
    assert_eq!(unrecognised_tags("a <b>bold</b> <blink>x</blink> 3 < 4"), vec!["blink".to_string()]);
    let doc = make_doc(vec![shape("box", vec![modifier(StyleKey::Label, StyleValue::String("<u>x</u>".to_string()))])]);
    let mut warnings = Vec::new();
    check_label_markup(&doc, &mut warnings);
    assert_eq!(warnings.len(), 1);
    assert!(warnings[0].message.starts_with("label on \"box\" contains unsupported markup <u>"));
}

#[test]
fn constraint_expressions_format() {
    let e = ConstraintExpr::EqualWithOffset {
        left: prop("a", ConstraintProperty::Left),
        right: prop("b", ConstraintProperty::Right),
        offset: Num::from_int(10),
    };
    assert_eq!(format_constraint_expr(&e), "a.left = b.right + 10");
}

#[test]
fn dedup_keeps_first_of_each() {
    let mut warnings = vec![
        warning(LintCategory::Overlap, "x"),
        warning(LintCategory::Overlap, "x"),
        warning(LintCategory::Label, "x"),
        warning(LintCategory::Overlap, "y"),
    ];
    dedup_warnings(&mut warnings);
    let got: Vec<(LintCategory, String)> = warnings.iter().map(|w| (w.category, w.message.clone())).collect();
    assert_eq!(
        got,
        vec![
            (LintCategory::Overlap, "x".to_string()),
            (LintCategory::Label, "x".to_string()),
            (LintCategory::Overlap, "y".to_string()),
        ]
    );
}

#[test]
fn merged_frames_name_where_a_defect_occurs() {
    let per_frame = vec![
        ("one".to_string(), vec![warning(LintCategory::Overlap, "everywhere"), warning(LintCategory::Label, "sometimes")]),
        ("two".to_string(), vec![warning(LintCategory::Overlap, "everywhere")]),
    ];
    let mut out = Vec::new();
    merge_frame_warnings(per_frame, &mut out);
    assert_eq!(out.len(), 2);
    assert_eq!(out[0].message, "everywhere");
    assert!(out[0].frames.is_empty());
    assert_eq!(out[1].message, "sometimes");
    assert_eq!(out[1].frames, vec!["one".to_string()]);
}

#[test]
fn overridden_constraints_replace_stale_over_constrained_warnings() {
    let mut warnings = vec![
        warning(LintCategory::OverConstrained, "constraint \"a.x = 5\" is violated by 3px; the system may be over-constrained"),
        warning(LintCategory::OverConstrained, "constraint \"b.y = 1\" is violated by 2px; the system may be over-constrained"),
        warning(LintCategory::Overlap, "a.x mentioned but not over-constrained"),
    ];
    let overridden = vec![("a".to_string(), "x".to_string())];
    check_overridden_constraints(&overridden, &mut warnings);
    assert_eq!(warnings.len(), 3);
    assert!(warnings[0].message.starts_with("constraint \"b.y = 1\""));
    assert_eq!(warnings[1].category, LintCategory::Overlap);
    assert_eq!(warnings[2].category, LintCategory::OverriddenConstraint);
    assert_eq!(
        warnings[2].message,
        "a later constrain on \"a\".x overrides an earlier one; the last statement wins \u{2014} delete the earlier one if that was intended"
    );
}

#[test]
fn display_names_of_elements() {
    assert_eq!(element_display_name(Some("box"), Some("row1"), 3), "\"box\"");
    assert_eq!(element_display_name(None, Some("row1"), 0), "<child #1 of row1>");
    assert_eq!(element_display_name(None, None, 11), "<child #12 of root>");
}

#[test]
fn test_named_element_display() {
    assert_eq!(element_display_name(Some("foo"), Some("parent"), 0), "\"foo\"");
}

#[test]
fn test_anonymous_element_display() {
    assert_eq!(element_display_name(None, Some("group_a"), 1), "<child #2 of group_a>");
}

#[test]
fn dedup_twice_changes_nothing() {
    let mut warnings = vec![
        warning(LintCategory::Overlap, "x"),
        warning(LintCategory::Overlap, "x"),
        warning(LintCategory::Label, "y"),
    ];
    warnings[2].pair = Some(("a".to_string(), "b".to_string()));
    let mut shadowed = warning(LintCategory::Overlap, "z");
    shadowed.pair = Some(("a".to_string(), "b".to_string()));
    warnings.push(shadowed);
    dedup_warnings(&mut warnings);
    let once: Vec<(LintCategory, String)> = warnings.iter().map(|w| (w.category, w.message.clone())).collect();
    assert_eq!(once, vec![(LintCategory::Overlap, "x".to_string()), (LintCategory::Label, "y".to_string())]);
    dedup_warnings(&mut warnings);
    let twice: Vec<(LintCategory, String)> = warnings.iter().map(|w| (w.category, w.message.clone())).collect();
    assert_eq!(once, twice);
}

#[test]
fn fills_dark_by_name() {
    assert_eq!(dark_fill_by_name("var(--accent-dark)"), Some(true));
    assert_eq!(dark_fill_by_name("var(--var(--text-1)))"), Some(true));
    assert_eq!(dark_fill_by_name("var(--accent-light)"), Some(false));
    assert_eq!(dark_fill_by_name("foreground-2"), Some(true));
    assert_eq!(dark_fill_by_name("#102030"), None);
    assert_eq!(dark_fill_by_name("white"), Some(false));
}
