//! Configuration for the layout engine.

use vstd::prelude::*;
use crate::num::Num;

verus! {

/// Configuration options for layout computation (lengths in thousandths).
#[derive(Debug, Clone, Copy)]
pub struct LayoutConfig {
    /// Default size for rectangles (width, height).
    pub default_rect_size: (Num, Num),
    /// Default radius for circles.
    pub default_circle_radius: Num,
    /// Default width for line shapes.
    pub default_line_width: Num,
    /// Default size for ellipses (width, height).
    pub default_ellipse_size: (Num, Num),
    /// Spacing between sibling elements.
    pub element_spacing: Num,
    /// Padding inside layout containers.
    pub container_padding: Num,
    /// Minimum spacing for connection routes around elements.
    pub connection_spacing: Num,
}

/// The default configuration.
pub open spec fn default_config() -> LayoutConfig {
    LayoutConfig {
        default_rect_size: (Num { milli: 80000 }, Num { milli: 30000 }),
        default_circle_radius: Num { milli: 25000 },
        default_line_width: Num { milli: 80000 },
        default_ellipse_size: (Num { milli: 80000 }, Num { milli: 45000 }),
        element_spacing: Num { milli: 4000 },
        container_padding: Num { milli: 5000 },
        connection_spacing: Num { milli: 10000 },
    }
}

impl Default for LayoutConfig {
    fn default() -> (r: Self)
        ensures
            r == default_config(),
    {
        LayoutConfig {
            default_rect_size: (Num { milli: 80000 }, Num { milli: 30000 }),
            default_circle_radius: Num { milli: 25000 },
            default_line_width: Num { milli: 80000 },
            default_ellipse_size: (Num { milli: 80000 }, Num { milli: 45000 }),
            element_spacing: Num { milli: 4000 },
            container_padding: Num { milli: 5000 },
            connection_spacing: Num { milli: 10000 },
        }
    }
}

impl LayoutConfig {
    /// A configuration with default values.
    pub fn new() -> (r: Self)
        ensures
            r == default_config(),
    {
        Self::default()
    }

    /// Sets the default rectangle size.
    pub fn with_rect_size(self, width: Num, height: Num) -> (r: Self)
        ensures
            r == (LayoutConfig { default_rect_size: (width, height), ..self }),
    {
        LayoutConfig { default_rect_size: (width, height), ..self }
    }

    /// Sets the default circle radius.
    pub fn with_circle_radius(self, radius: Num) -> (r: Self)
        ensures
            r == (LayoutConfig { default_circle_radius: radius, ..self }),
    {
        LayoutConfig { default_circle_radius: radius, ..self }
    }

    /// Sets the spacing between elements.
    pub fn with_element_spacing(self, spacing: Num) -> (r: Self)
        ensures
            r == (LayoutConfig { element_spacing: spacing, ..self }),
    {
        LayoutConfig { element_spacing: spacing, ..self }
    }

    /// Sets the container padding.
    pub fn with_container_padding(self, padding: Num) -> (r: Self)
        ensures
            r == (LayoutConfig { container_padding: padding, ..self }),
    {
        LayoutConfig { container_padding: padding, ..self }
    }
}

} // verus!
