//! Layout style enumerations for flex and grid containers and their
//! children. The float-valued style records (lengths, paints, shadows, text)
//! and their conversion to taffy live with the layout glue.

use vstd::prelude::*;

verus! {

/// Main axis of a flex container.
#[derive(Debug, Clone, Copy, Eq, PartialEq, Structural)]
pub enum FlexDirection {
    Row,
    RowReverse,
    Column,
    ColumnReverse,
}

impl Default for FlexDirection {
    fn default() -> (r: Self)
        ensures
            r == FlexDirection::Row,
    {
        FlexDirection::Row
    }
}

/// Distribution of items along the main axis.
#[derive(Debug, Clone, Copy, Eq, PartialEq, Structural)]
pub enum JustifyContent {
    Start,
    End,
    FlexStart,
    FlexEnd,
    Center,
    Stretch,
    SpaceBetween,
    SpaceEvenly,
    SpaceAround,
}

impl Default for JustifyContent {
    fn default() -> (r: Self)
        ensures
            r == JustifyContent::FlexStart,
    {
        JustifyContent::FlexStart
    }
}

/// Default cross-axis alignment of a container's children.
#[derive(Debug, Clone, Copy, Eq, PartialEq, Structural)]
pub enum AlignItems {
    Start,
    End,
    FlexStart,
    FlexEnd,
    Center,
    Baseline,
    Stretch,
}

impl Default for AlignItems {
    fn default() -> (r: Self)
        ensures
            r == AlignItems::Stretch,
    {
        AlignItems::Stretch
    }
}

/// Cross-axis alignment of one child.
#[derive(Debug, Clone, Copy, Eq, PartialEq, Structural)]
pub enum AlignSelf {
    Start,
    End,
    FlexStart,
    FlexEnd,
    Center,
    Baseline,
    Stretch,
}

impl Default for AlignSelf {
    fn default() -> (r: Self)
        ensures
            r == AlignSelf::Start,
    {
        AlignSelf::Start
    }
}

/// Distribution of lines along the cross axis.
#[derive(Debug, Clone, Copy, Eq, PartialEq, Structural)]
pub enum AlignContent {
    Start,
    End,
    FlexStart,
    FlexEnd,
    Center,
    Stretch,
    SpaceBetween,
    SpaceEvenly,
    SpaceAround,
}

impl Default for AlignContent {
    fn default() -> (r: Self)
        ensures
            r == AlignContent::Stretch,
    {
        AlignContent::Stretch
    }
}

/// Whether flex items wrap onto several lines.
#[derive(Debug, Clone, Copy, Eq, PartialEq, Structural)]
pub enum FlexWrap {
    NoWrap,
    Wrap,
    WrapReverse,
}

impl Default for FlexWrap {
    fn default() -> (r: Self)
        ensures
            r == FlexWrap::NoWrap,
    {
        FlexWrap::NoWrap
    }
}

/// Container properties of a flex layout.
#[derive(Debug, Clone, Copy, Eq, PartialEq, Structural)]
pub struct DisplayFlexStyles {
    /// Main axis and direction in which items are placed.
    pub direction: FlexDirection,
    /// Distribution of space along the main axis.
    pub justify_content: JustifyContent,
    /// Distribution of lines along the cross axis.
    pub align_content: AlignContent,
    /// Default `align_self` of all children.
    pub align_items: AlignItems,
    pub wrap: FlexWrap,
}

impl Default for DisplayFlexStyles {
    fn default() -> (r: Self)
        ensures
            r == (DisplayFlexStyles {
                direction: FlexDirection::Row,
                justify_content: JustifyContent::FlexStart,
                align_content: AlignContent::Stretch,
                align_items: AlignItems::Stretch,
                wrap: FlexWrap::NoWrap,
            }),
    {
        DisplayFlexStyles {
            direction: FlexDirection::default(),
            justify_content: JustifyContent::default(),
            align_content: AlignContent::default(),
            align_items: AlignItems::default(),
            wrap: FlexWrap::default(),
        }
    }
}

/// Placement order of auto-placed grid items.
#[derive(Debug, Clone, Copy, Eq, PartialEq, Structural)]
pub enum GridAutoFlow {
    Row,
    Column,
    /// Row order with dense packing.
    RowDense,
    /// Column order with dense packing.
    ColumnDense,
}

impl Default for GridAutoFlow {
    fn default() -> (r: Self)
        ensures
            r == GridAutoFlow::Row,
    {
        GridAutoFlow::Row
    }
}

/// How often a repeated grid track pattern repeats.
#[derive(Debug, Clone, Copy, Eq, PartialEq, Structural)]
pub enum RepeatCount {
    Count(usize),
    AutoFill,
    AutoFit,
}

impl Default for RepeatCount {
    fn default() -> (r: Self)
        ensures
            r == RepeatCount::AutoFill,
    {
        RepeatCount::AutoFill
    }
}

/// Overflow behaviour of a container's children on one axis.
#[derive(Debug, Clone, PartialEq, Eq, Structural)]
pub enum Overflow {
    Visible,
    Hidden,
    /// Behaves as hidden; marks widgets that implement scrolling.
    Scroll,
}

impl Default for Overflow {
    fn default() -> (r: Self)
        ensures
            r == Overflow::Visible,
    {
        Overflow::Visible
    }
}

impl Overflow {
    /// Whether the overflow clips children during layout: `Scroll` behaves
    /// as `Hidden`.
    pub fn clips(&self) -> (r: bool)
        ensures
            r == !(*self == Overflow::Visible),
    {
        match self {
            Overflow::Visible => false,
            Overflow::Hidden => true,
            Overflow::Scroll => true,
        }
    }
}

/// Font weight levels.
#[derive(Debug, Clone, PartialEq, Eq, Structural)]
pub enum FontWeight {
    Thin,
    Light,
    Regular,
    Medium,
    Semibold,
    Bold,
    ExtraBold,
    Black,
}

impl Default for FontWeight {
    fn default() -> (r: Self)
        ensures
            r == FontWeight::Regular,
    {
        FontWeight::Regular
    }
}

/// Horizontal text alignment.
#[derive(Debug, Clone, PartialEq, Eq, Structural)]
pub enum TextAlignment {
    Start,
    Center,
    End,
    Justify,
}

impl Default for TextAlignment {
    fn default() -> (r: Self)
        ensures
            r == TextAlignment::Start,
    {
        TextAlignment::Start
    }
}

/// Placement of a grid child on one line boundary.
#[derive(Debug, Clone, Copy, PartialEq, Eq, Structural)]
pub enum GridPlacement {
    Auto,
    Line(i16),
}

impl Default for GridPlacement {
    fn default() -> (r: Self)
        ensures
            r == GridPlacement::Auto,
    {
        GridPlacement::Auto
    }
}

/// Grid placement of a child.
#[derive(Debug, Clone, Copy, PartialEq, Eq, Structural)]
pub struct GridProperties {
    pub grid_row_start: GridPlacement,
    pub grid_row_end: GridPlacement,
    pub grid_column_start: GridPlacement,
    pub grid_column_end: GridPlacement,
}

impl Default for GridProperties {
    fn default() -> (r: Self)
        ensures
            r.grid_row_start == GridPlacement::Auto,
            r.grid_row_end == GridPlacement::Auto,
            r.grid_column_start == GridPlacement::Auto,
            r.grid_column_end == GridPlacement::Auto,
    {
        GridProperties {
            grid_row_start: GridPlacement::default(),
            grid_row_end: GridPlacement::default(),
            grid_column_start: GridPlacement::default(),
            grid_column_end: GridPlacement::default(),
        }
    }
}

/// Inline direction of a layout.
#[derive(Clone, Copy, PartialEq, Eq, Debug, Structural)]
pub enum LayoutDirection {
    LeftToRight,
    RightToLeft,
}

impl Default for LayoutDirection {
    fn default() -> (r: Self)
        ensures
            r == LayoutDirection::LeftToRight,
    {
        LayoutDirection::LeftToRight
    }
}

} // verus!
