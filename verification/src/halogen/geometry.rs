//! Generic geometry containers: per-axis, per-corner, per-edge values and
//! points. They hold any value type; the float-valued units (pixels,
//! percentages, scale units, rectangles) live with the renderer glue.

use vstd::prelude::*;

verus! {

/// A value per axis.
#[derive(Debug, Clone, Copy, PartialEq)]
pub struct Axes<T> {
    pub horizontal: T,
    pub vertical: T,
}

impl<T: Clone> Axes<T> {
    /// The same value on both axes (the vertical one is the value itself,
    /// the horizontal one a clone of it).
    pub fn both(value: T) -> (r: Self)
        ensures
            cloned(value, r.horizontal),
            r.vertical == value,
    {
        Self::new(value.clone(), value)
    }
}

impl<T> Axes<T> {
    pub fn new(horizontal: T, vertical: T) -> (r: Self)
        ensures
            r.horizontal == horizontal,
            r.vertical == vertical,
    {
        Self { horizontal, vertical }
    }
}

impl<T: Default> Default for Axes<T> {
    fn default() -> (r: Self)
        ensures
            call_ensures(T::default, (), r.horizontal),
            call_ensures(T::default, (), r.vertical),
    {
        Self::new(T::default(), T::default())
    }
}

/// A value per corner of a box.
#[derive(Copy, Clone, Debug, PartialEq)]
pub struct Corners<T> {
    pub top_left: T,
    pub top_right: T,
    pub bottom_left: T,
    pub bottom_right: T,
}

impl<T: Clone> Corners<T> {
    /// The same value on all four corners (bottom-right holds the value
    /// itself, the others clones of it).
    pub fn all(value: T) -> (r: Self)
        ensures
            cloned(value, r.top_left),
            cloned(value, r.top_right),
            cloned(value, r.bottom_left),
            r.bottom_right == value,
    {
        Self {
            top_left: value.clone(),
            top_right: value.clone(),
            bottom_left: value.clone(),
            bottom_right: value,
        }
    }
}

impl<T> Corners<T> {
    pub fn new(top_left: T, top_right: T, bottom_left: T, bottom_right: T) -> (r: Self)
        ensures
            r.top_left == top_left,
            r.top_right == top_right,
            r.bottom_left == bottom_left,
            r.bottom_right == bottom_right,
    {
        Self { top_left, top_right, bottom_left, bottom_right }
    }
}

impl<T: Default> Default for Corners<T> {
    fn default() -> (r: Self)
        ensures
            call_ensures(T::default, (), r.top_left),
            call_ensures(T::default, (), r.top_right),
            call_ensures(T::default, (), r.bottom_left),
            call_ensures(T::default, (), r.bottom_right),
    {
        Self {
            top_left: T::default(),
            top_right: T::default(),
            bottom_left: T::default(),
            bottom_right: T::default(),
        }
    }
}

/// A value per edge of a box.
#[derive(Copy, Clone, Debug, PartialEq)]
pub struct Edges<T> {
    pub top: T,
    pub bottom: T,
    pub left: T,
    pub right: T,
}

impl<T: Clone> Edges<T> {
    /// The same value on all four edges (right holds the value itself).
    pub fn all(value: T) -> (r: Self)
        ensures
            cloned(value, r.top),
            cloned(value, r.bottom),
            cloned(value, r.left),
            r.right == value,
    {
        Self { top: value.clone(), bottom: value.clone(), left: value.clone(), right: value }
    }

    /// `horizontal` on left and right, `vertical` on top and bottom.
    pub fn hv(horizontal: T, vertical: T) -> (r: Self)
        ensures
            cloned(vertical, r.top),
            cloned(vertical, r.bottom),
            cloned(horizontal, r.left),
            r.right == horizontal,
    {
        Self {
            top: vertical.clone(),
            bottom: vertical.clone(),
            left: horizontal.clone(),
            right: horizontal,
        }
    }
}

impl<T> Edges<T> {
    pub fn new(top: T, bottom: T, left: T, right: T) -> (r: Self)
        ensures
            r.top == top,
            r.bottom == bottom,
            r.left == left,
            r.right == right,
    {
        Self { top, bottom, left, right }
    }
}

impl<T: Default> Default for Edges<T> {
    fn default() -> (r: Self)
        ensures
            call_ensures(T::default, (), r.top),
            call_ensures(T::default, (), r.bottom),
            call_ensures(T::default, (), r.left),
            call_ensures(T::default, (), r.right),
    {
        Self { top: T::default(), bottom: T::default(), left: T::default(), right: T::default() }
    }
}

/// A 2D point.
#[derive(Debug, Copy, PartialEq)]
pub struct Point<T> {
    pub x: T,
    pub y: T,
}

impl<T> Point<T> {
    pub fn new(x: T, y: T) -> (r: Self)
        ensures
            r.x == x,
            r.y == y,
    {
        Self { x, y }
    }
}

impl<T: Clone> Clone for Point<T> {
    fn clone(&self) -> (r: Self)
        ensures
            cloned(self.x, r.x),
            cloned(self.y, r.y),
    {
        Self { x: self.x.clone(), y: self.y.clone() }
    }
}

impl<T: Clone> Point<T> {
    /// The same value on both coordinates (y holds the value itself).
    pub fn both(v: T) -> (r: Self)
        ensures
            cloned(v, r.x),
            r.y == v,
    {
        Self { x: v.clone(), y: v }
    }
}

impl<T: Default> Default for Point<T> {
    fn default() -> (r: Self)
        ensures
            call_ensures(T::default, (), r.x),
            call_ensures(T::default, (), r.y),
    {
        Self { x: T::default(), y: T::default() }
    }
}

} // verus!
