//! Style values of Phosphor that carry no floating-point data: per-edge and
//! per-corner containers and the layout enums. The float-valued parts of a
//! style (dimensions, colours, textures) and their conversion to taffy live
//! with the renderer glue.

use vstd::prelude::*;

verus! {

/// Per-edge values for padding, margin, border and insets.
#[derive(Debug, Clone, PartialEq)]
pub struct Edges<T: Clone> {
    pub top: T,
    pub right: T,
    pub bottom: T,
    pub left: T,
}

impl<T: Clone> Edges<T> {
    /// The same value on all four edges (the left edge holds the value
    /// itself, the others clones of it).
    pub fn all(v: T) -> (r: Self)
        ensures
            cloned(v, r.top),
            cloned(v, r.right),
            cloned(v, r.bottom),
            r.left == v,
    {
        Self { top: v.clone(), right: v.clone(), bottom: v.clone(), left: v }
    }

    /// `x` on left and right, `y` on top and bottom.
    pub fn xy(x: T, y: T) -> (r: Self)
        ensures
            cloned(y, r.top),
            cloned(x, r.right),
            r.bottom == y,
            r.left == x,
    {
        Self { top: y.clone(), right: x.clone(), bottom: y, left: x }
    }

    /// Each edge on its own, in CSS order (top, right, bottom, left).
    pub fn sides(top: T, right: T, bottom: T, left: T) -> (r: Self)
        ensures
            r == (Edges { top, right, bottom, left }),
    {
        Self { top, right, bottom, left }
    }

    pub fn with_top(self, v: T) -> (r: Self)
        ensures
            r == (Edges { top: v, ..self }),
    {
        let mut s = self;
        s.top = v;
        s
    }

    pub fn with_bottom(self, v: T) -> (r: Self)
        ensures
            r == (Edges { bottom: v, ..self }),
    {
        let mut s = self;
        s.bottom = v;
        s
    }

    pub fn with_left(self, v: T) -> (r: Self)
        ensures
            r == (Edges { left: v, ..self }),
    {
        let mut s = self;
        s.left = v;
        s
    }

    pub fn with_right(self, v: T) -> (r: Self)
        ensures
            r == (Edges { right: v, ..self }),
    {
        let mut s = self;
        s.right = v;
        s
    }
}

impl<T: Clone + Default> Default for Edges<T> {
    fn default() -> (r: Self)
        ensures
            call_ensures(T::default, (), r.top),
            call_ensures(T::default, (), r.right),
            call_ensures(T::default, (), r.bottom),
            call_ensures(T::default, (), r.left),
    {
        Self { top: T::default(), right: T::default(), bottom: T::default(), left: T::default() }
    }
}

/// Per-corner values for border radii.
#[derive(Debug, Clone, Copy, PartialEq)]
pub struct Corners<T: Clone> {
    pub top_left: T,
    pub top_right: T,
    pub bottom_right: T,
    pub bottom_left: T,
}

impl<T: Clone> Corners<T> {
    /// The same value on all four corners (bottom-left holds the value
    /// itself, the others clones of it).
    pub fn all(v: T) -> (r: Self)
        ensures
            cloned(v, r.top_left),
            cloned(v, r.top_right),
            cloned(v, r.bottom_right),
            r.bottom_left == v,
    {
        Self { top_left: v.clone(), top_right: v.clone(), bottom_right: v.clone(), bottom_left: v }
    }

    /// Each corner on its own; the order is top-left, top-right,
    /// bottom-left, bottom-right (not the CSS order).
    pub fn individual(top_left: T, top_right: T, bottom_left: T, bottom_right: T) -> (r: Self)
        ensures
            r == (Corners { top_left, top_right, bottom_right, bottom_left }),
    {
        Self { top_left, top_right, bottom_left, bottom_right }
    }

    /// Sets both top corners; the bottom ones are kept.
    pub fn with_top(self, radius: T) -> (r: Self)
        ensures
            cloned(radius, r.top_left),
            r.top_right == radius,
            r.bottom_left == self.bottom_left,
            r.bottom_right == self.bottom_right,
    {
        let mut s = self;
        s.top_left = radius.clone();
        s.top_right = radius;
        s
    }

    /// Sets both bottom corners; the top ones are kept.
    pub fn with_bottom(self, radius: T) -> (r: Self)
        ensures
            cloned(radius, r.bottom_left),
            r.bottom_right == radius,
            r.top_left == self.top_left,
            r.top_right == self.top_right,
    {
        let mut s = self;
        s.bottom_left = radius.clone();
        s.bottom_right = radius;
        s
    }

    /// Sets both left corners; the right ones are kept.
    pub fn with_left(self, radius: T) -> (r: Self)
        ensures
            cloned(radius, r.top_left),
            r.bottom_left == radius,
            r.top_right == self.top_right,
            r.bottom_right == self.bottom_right,
    {
        let mut s = self;
        s.top_left = radius.clone();
        s.bottom_left = radius;
        s
    }

    /// Sets both right corners; the left ones are kept.
    pub fn with_right(self, radius: T) -> (r: Self)
        ensures
            cloned(radius, r.top_right),
            r.bottom_right == radius,
            r.top_left == self.top_left,
            r.bottom_left == self.bottom_left,
    {
        let mut s = self;
        s.top_right = radius.clone();
        s.bottom_right = radius;
        s
    }
}

impl<T: Clone + Default> Corners<T> {
    /// Both top corners set, the bottom ones at their default.
    pub fn from_top(v: T) -> (r: Self)
        ensures
            cloned(v, r.top_left),
            r.top_right == v,
            call_ensures(T::default, (), r.bottom_left),
            call_ensures(T::default, (), r.bottom_right),
    {
        let d = Self::default();
        Self { top_left: v.clone(), top_right: v, ..d }
    }

    /// Both bottom corners set, the top ones at their default. The receiver
    /// is not consulted.
    pub fn from_bottom(self, v: T) -> (r: Self)
        ensures
            cloned(v, r.bottom_left),
            r.bottom_right == v,
            call_ensures(T::default, (), r.top_left),
            call_ensures(T::default, (), r.top_right),
    {
        let d = Self::default();
        Self { bottom_left: v.clone(), bottom_right: v, ..d }
    }

    /// Both left corners set, the right ones at their default. The receiver
    /// is not consulted.
    pub fn from_left(self, v: T) -> (r: Self)
        ensures
            cloned(v, r.top_left),
            r.bottom_left == v,
            call_ensures(T::default, (), r.top_right),
            call_ensures(T::default, (), r.bottom_right),
    {
        let d = Self::default();
        Self { top_left: v.clone(), bottom_left: v, ..d }
    }

    /// Both right corners set, the left ones at their default. The receiver
    /// is not consulted.
    pub fn from_right(self, v: T) -> (r: Self)
        ensures
            cloned(v, r.top_right),
            r.bottom_right == v,
            call_ensures(T::default, (), r.top_left),
            call_ensures(T::default, (), r.bottom_left),
    {
        let d = Self::default();
        Self { top_right: v.clone(), bottom_right: v, ..d }
    }
}

impl<T: Clone + Default> Default for Corners<T> {
    fn default() -> (r: Self)
        ensures
            call_ensures(T::default, (), r.top_left),
            call_ensures(T::default, (), r.top_right),
            call_ensures(T::default, (), r.bottom_right),
            call_ensures(T::default, (), r.bottom_left),
    {
        Self {
            top_left: T::default(),
            top_right: T::default(),
            bottom_right: T::default(),
            bottom_left: T::default(),
        }
    }
}

/// Main axis direction of a flex container.
#[derive(Debug, Clone, Copy, PartialEq, Eq, Structural)]
pub enum FlexDirection {
    /// Children line up left to right.
    Row,
    /// Children stack top to bottom.
    Column,
    /// Children line up right to left.
    RowReverse,
    /// Children stack bottom to top.
    ColumnReverse,
}

impl Default for FlexDirection {
    fn default() -> (r: Self)
        ensures
            r == FlexDirection::Row,
    {
        FlexDirection::Row
    }
}

/// Cross-axis alignment of the children of a flex container.
#[derive(Debug, Clone, Copy, PartialEq, Eq, Structural)]
pub enum Align {
    Stretch,
    Start,
    Center,
    End,
    Baseline,
}

impl Default for Align {
    fn default() -> (r: Self)
        ensures
            r == Align::Stretch,
    {
        Align::Stretch
    }
}

/// Main-axis distribution of the children of a flex container.
#[derive(Debug, Clone, Copy, PartialEq, Eq, Structural)]
pub enum Justify {
    Start,
    Center,
    End,
    SpaceBetween,
    SpaceAround,
    SpaceEvenly,
}

impl Default for Justify {
    fn default() -> (r: Self)
        ensures
            r == Justify::Start,
    {
        Justify::Start
    }
}

/// How a widget takes part in layout. The flex container properties live
/// inside `Flex`, so a hidden widget cannot carry them.
#[derive(Debug, Clone, Copy, PartialEq, Eq, Structural)]
pub enum Display {
    /// A flex container; the default.
    Flex { direction: FlexDirection, align_items: Align, justify_content: Justify },
    /// Not rendered, and takes no space in the layout.
    Hidden,
}

impl Default for Display {
    fn default() -> (r: Self)
        ensures
            r == (Display::Flex {
                direction: FlexDirection::Row,
                align_items: Align::Stretch,
                justify_content: Justify::Start,
            }),
    {
        Display::Flex {
            direction: FlexDirection::default(),
            align_items: Align::default(),
            justify_content: Justify::default(),
        }
    }
}

/// What happens to content that overflows a widget's bounds.
#[derive(Debug, Clone, Copy, PartialEq, Eq, Structural)]
pub enum Overflow {
    /// Children render outside the bounds.
    Visible,
    /// Content outside the bounds is clipped.
    Hidden,
    /// Clipped for layout; the widget scrolls its content itself.
    Scroll,
}

impl Default for Overflow {
    fn default() -> (r: Self)
        ensures
            r == Overflow::Visible,
    {
        Overflow::Visible
    }
}

impl Overflow {
    /// Whether layout clips the content: `Scroll` is laid out as `Hidden`
    /// (the scroll offset is kept elsewhere).
    pub fn clips(&self) -> (r: bool)
        ensures
            r == !(*self is Visible),
    {
        match self {
            Overflow::Visible => false,
            Overflow::Hidden => true,
            Overflow::Scroll => true,
        }
    }
}

/// Overflow behaviour per axis.
#[derive(Debug, Clone, Copy, PartialEq, Eq, Structural)]
pub struct OverflowAxes {
    pub x: Overflow,
    pub y: Overflow,
}

/// Font weight.
#[derive(Debug, Clone, Copy, PartialEq, Eq, Structural)]
pub enum FontWeight {
    Thin,
    Light,
    Regular,
    Medium,
    SemiBold,
    Bold,
    ExtraBold,
    Black,
}

impl Default for FontWeight {
    fn default() -> (r: Self)
        ensures
            r == FontWeight::Regular,
    {
        FontWeight::Regular
    }
}

/// Horizontal text alignment within a widget's bounds.
#[derive(Debug, Clone, Copy, PartialEq, Eq, Structural)]
pub enum TextAlign {
    Start,
    Center,
    End,
    /// Both edges; the last line is start-aligned.
    Justify,
}

impl Default for TextAlign {
    fn default() -> (r: Self)
        ensures
            r == TextAlign::Start,
    {
        TextAlign::Start
    }
}

} // verus!
