use vstd::prelude::*;

verus! {

/// Stable, generation-checked handle of a widget instance.
///
/// The handle carries the 64-bit encoding of a slot-map key (index in the
/// low half, generation in the high half). Two handles denote the same
/// widget exactly when their encodings are equal.
#[derive(Clone, Copy, Debug, PartialEq, Eq, Hash, Structural)]
pub struct WidgetId {
    pub raw: u64,
}

/// Encoding of the null slot-map key: index `u32::MAX`, generation 1.
pub const NULL_WIDGET_ID_RAW: u64 = 0x0000_0001_ffff_ffffu64;

impl WidgetId {
    pub open spec fn view(self) -> u64 {
        self.raw
    }

    /// Wrap a raw key encoding.
    pub fn from_raw(raw: u64) -> (r: WidgetId)
        ensures
            r.raw == raw,
    {
        WidgetId { raw }
    }

    /// The null handle, which never names a live widget.
    pub fn null() -> (r: WidgetId)
        ensures
            r.raw == NULL_WIDGET_ID_RAW,
    {
        WidgetId { raw: NULL_WIDGET_ID_RAW }
    }

    /// Whether this is the null handle (index half equal to `u32::MAX`).
    pub fn is_null(&self) -> (r: bool)
        ensures
            r == (self.raw % 0x1_0000_0000 == 0xffff_ffff),
    {
        self.raw % 0x1_0000_0000u64 == 0xffff_ffffu64
    }
}

impl Default for WidgetId {
    fn default() -> (r: WidgetId)
        ensures
            r.raw == NULL_WIDGET_ID_RAW,
    {
        WidgetId::null()
    }
}

} // verus!
