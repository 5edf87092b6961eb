//! Widget identity: reconciliation keys and the dirty-notification hook.

use vstd::prelude::*;

verus! {

/// Whether two string slices hold the same characters.
fn str_eq(a: &str, b: &str) -> (r: bool)
    ensures
        r == (a@ == b@),
{
    let n = a.unicode_len();
    if n != b.unicode_len() {
        return false;
    }
    let mut i: usize = 0;
    while i < n
        invariant
            n == a@.len(),
            a@.len() == b@.len(),
            i <= n,
            forall|j: int| 0 <= j < i ==> a@[j] == b@[j],
        decreases n - i,
    {
        if a.get_char(i) != b.get_char(i) {
            return false;
        }
        i = i + 1;
    }
    assert(a@ =~= b@);
    true
}

/// A stable identity for a child across rebuilds.
#[derive(Clone, Debug, Hash)]
pub enum WidgetKey {
    Int(u64),
    Str(&'static str),
}

/// The content of a key.
pub enum KeyView {
    Int(u64),
    Str(Seq<char>),
}

impl View for WidgetKey {
    type V = KeyView;

    open spec fn view(&self) -> KeyView {
        match self {
            WidgetKey::Int(n) => KeyView::Int(*n),
            WidgetKey::Str(s) => KeyView::Str(s@),
        }
    }
}

/// Two keys are equal when they are the same integer or the same string.
pub fn keys_equal(a: &WidgetKey, b: &WidgetKey) -> (r: bool)
    ensures
        r == (a@ == b@),
{
    match (a, b) {
        (WidgetKey::Int(x), WidgetKey::Int(y)) => *x == *y,
        (WidgetKey::Str(x), WidgetKey::Str(y)) => str_eq(x, y),
        _ => false,
    }
}

impl PartialEq for WidgetKey {
    fn eq(&self, other: &Self) -> (r: bool) {
        keys_equal(self, other)
    }
}

impl vstd::std_specs::cmp::PartialEqSpecImpl for WidgetKey {
    open spec fn obeys_eq_spec() -> bool {
        true
    }

    open spec fn eq_spec(&self, other: &WidgetKey) -> bool {
        self@ == other@
    }
}

impl Eq for WidgetKey {}

impl From<u64> for WidgetKey {
    fn from(n: u64) -> (r: Self) {
        WidgetKey::Int(n)
    }
}

impl vstd::std_specs::convert::FromSpecImpl<u64> for WidgetKey {
    open spec fn obeys_from_spec() -> bool {
        true
    }

    open spec fn from_spec(v: u64) -> WidgetKey {
        WidgetKey::Int(v)
    }
}

impl From<&'static str> for WidgetKey {
    fn from(s: &'static str) -> (r: Self) {
        WidgetKey::Str(s)
    }
}

impl vstd::std_specs::convert::FromSpecImpl<&'static str> for WidgetKey {
    open spec fn obeys_from_spec() -> bool {
        true
    }

    open spec fn from_spec(v: &'static str) -> WidgetKey {
        WidgetKey::Str(v)
    }
}

/// Held weakly by signals; marks a subscribed widget dirty.
pub trait DirtyNotify: Send + Sync {
    fn mark_dirty(&self);
}

} // verus!
