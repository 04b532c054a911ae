use agent_illustrator::layout::config::LayoutConfig;
use agent_illustrator::num::Num;

fn n(x: i32) -> Num {
    Num::from_int(x)
}

#[test]
fn test_default_config() {
    let config = LayoutConfig::default();
    assert_eq!(config.default_rect_size, (n(80), n(30)));
    assert_eq!(config.default_circle_radius, n(25));
    assert_eq!(config.default_line_width, n(80));
    assert_eq!(config.default_ellipse_size, (n(80), n(45)));
    assert_eq!(config.element_spacing, n(4));
    assert_eq!(config.container_padding, n(5));
    assert_eq!(config.connection_spacing, n(10));
}

#[test]
fn test_builder_pattern() {
    let config = LayoutConfig::new().with_rect_size(n(150), n(75)).with_element_spacing(n(30));

    assert_eq!(config.default_rect_size, (n(150), n(75)));
    assert_eq!(config.element_spacing, n(30));
}

#[test]
fn builder_keeps_other_fields() {
    let config = LayoutConfig::new().with_circle_radius(n(7)).with_container_padding(n(9));
    assert_eq!(config.default_circle_radius, n(7));
    assert_eq!(config.container_padding, n(9));
    assert_eq!(config.default_rect_size, (n(80), n(30)));
}
