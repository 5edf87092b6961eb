//! Paint values of Halogen that carry no floating-point data: blend modes
//! and image sources. Paint commands carry geometry and colours and live
//! with the renderer glue.

use std::sync::Arc;
use vstd::prelude::*;

verus! {

/// How a layer is composited onto what lies below it.
pub enum BlendMode {
    Normal,
    Multiply,
    Screen,
    Overlay,
    Darken,
    Lighten,
    ColorDodge,
    ColorBurn,
    HardLight,
    SoftLight,
    Difference,
    Exclusion,
    Hue,
    Saturation,
    Color,
    Luminosity,
}

/// Pixel data of an image, implemented by the application.
pub trait ImageData: Send + Sync {
    fn width(&self) -> u32;

    fn height(&self) -> u32;
}

/// A shared handle on an image.
pub struct ImageRef(pub Arc<dyn ImageData>);

/// A paint state with push/pop layering: pushing saves the current value
/// and installs a new one; popping restores the last saved value, and does
/// nothing when nothing is saved.
pub struct LayerState<T> {
    current: T,
    saved: Vec<T>,
}

impl<T> LayerState<T> {
    /// The value in force.
    pub closed spec fn value(&self) -> T {
        self.current
    }

    /// The saved values, the most recently saved last.
    pub closed spec fn saved_values(&self) -> Seq<T> {
        self.saved@
    }

    /// A state holding `initial`, with nothing saved.
    pub fn new(initial: T) -> (r: Self)
        ensures
            r.value() == initial,
            r.saved_values() == Seq::<T>::empty(),
    {
        LayerState { current: initial, saved: Vec::new() }
    }

    /// The value in force.
    pub fn current(&self) -> (r: &T)
        ensures
            *r == self.value(),
    {
        &self.current
    }

    /// How many values are saved.
    pub fn depth(&self) -> (r: usize)
        ensures
            r == self.saved_values().len(),
    {
        self.saved.len()
    }

    /// Saves the current value and installs `v`.
    pub fn push(&mut self, v: T)
        ensures
            final(self).value() == v,
            final(self).saved_values() == old(self).saved_values().push(old(self).value()),
    {
        let mut prev = v;
        std::mem::swap(&mut self.current, &mut prev);
        self.saved.push(prev);
    }

    /// Restores the most recently saved value; nothing happens when no value
    /// is saved.
    pub fn pop(&mut self)
        ensures
            old(self).saved_values().len() == 0 ==> final(self).value() == old(self).value()
                && final(self).saved_values() == old(self).saved_values(),
            old(self).saved_values().len() > 0 ==> final(self).value() == old(self).saved_values().last()
                && final(self).saved_values() == old(self).saved_values().drop_last(),
    {
        match self.saved.pop() {
            Some(prev) => {
                self.current = prev;
            },
            None => {},
        }
    }

    /// Drops every saved value and installs `v`.
    pub fn reset(&mut self, v: T)
        ensures
            final(self).value() == v,
            final(self).saved_values() == Seq::<T>::empty(),
    {
        self.current = v;
        self.saved.clear();
    }
}

/// A pop undoes the push before it: after `push` on a state `s`, the saved
/// values are nonempty, and a `pop` brings back the value in force and the
/// saved values of `s`.
pub proof fn law_pop_undoes_push<T>(s: LayerState<T>)
    ensures
        s.saved_values().push(s.value()).len() > 0,
        s.saved_values().push(s.value()).last() == s.value(),
        s.saved_values().push(s.value()).drop_last() == s.saved_values(),
{
    assert(s.saved_values().push(s.value()).drop_last() =~= s.saved_values());
}

} // verus!
