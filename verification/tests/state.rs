use phosphor_ui::halogen::signal::Signal as HSignal;
use phosphor_ui::ids::WidgetId;
use phosphor_ui::phosphor::signal::{signal, Signal};
use phosphor_ui::subscribers::retain_flagged;
use phosphor_ui::theme::Theme;

fn w(raw: u64) -> WidgetId {
    WidgetId::from_raw(raw)
}

fn ids<N>(subs: &Vec<(WidgetId, N)>) -> Vec<u64> {
    subs.iter().map(|(id, _)| id.raw).collect()
}

#[test]
fn signal_set_then_read() {
    let mut s: Signal<u32, u8> = Signal::new(1);
    assert_eq!(s.get_untracked(), 1);
    assert_eq!(s.version(), 0);
    s.set(5, &vec![]);
    assert_eq!(s.get_untracked(), 5);
    assert_eq!(s.version(), 1);
    s.update(|v| v * 10, &vec![]);
    assert_eq!(s.get_untracked(), 50);
    assert_eq!(s.version(), 2);
    let t: Signal<&str, ()> = signal("x");
    assert_eq!(t.get_untracked(), "x");
}

#[test]
fn signal_tracked_read_subscribes_once() {
    let mut s: Signal<u32, u8> = Signal::new(3);
    assert_eq!(s.get(None), 3);
    assert!(s.subscribers().is_empty());
    assert_eq!(s.get(Some((w(10), 1))), 3);
    assert_eq!(s.get(Some((w(10), 2))), 3);
    assert_eq!(s.get(Some((w(11), 3))), 3);
    assert_eq!(s.subscribers(), &vec![(w(10), 1), (w(11), 3)]);
    assert_eq!(s.version(), 0);
}

#[test]
fn signal_prunes_dead_subscribers_on_change() {
    let mut s: Signal<u32, u8> = Signal::new(0);
    s.subscribe(w(1), 1);
    s.subscribe(w(2), 2);
    s.subscribe(w(3), 3);
    s.set(9, &vec![true, false, true]);
    assert_eq!(ids(s.subscribers()), vec![1, 3]);
    s.notify_subscribers(&vec![false, true]);
    assert_eq!(ids(s.subscribers()), vec![3]);
}

#[test]
fn signal_unsubscribe_and_null_subscriber() {
    let mut s: Signal<u32, u8> = Signal::new(0);
    s.subscribe(w(1), 1);
    s.subscribe_arc(7);
    s.subscribe(w(2), 2);
    s.unsubscribe(w(1));
    assert_eq!(s.subscribers(), &vec![(WidgetId::null(), 7), (w(2), 2)]);
    s.unsubscribe(w(99));
    assert_eq!(s.subscribers().len(), 2);
}

#[test]
fn signal_version_wraps() {
    let mut s: Signal<u8, ()> = Signal::new(0);
    for i in 0..300u32 {
        s.set((i % 256) as u8, &vec![]);
    }
    assert_eq!(s.version(), 300);
}

#[test]
fn halogen_signal_subscribe_replaces_handle() {
    let mut s: HSignal<String, u8> = HSignal::new("a".to_string());
    s.subscribe(w(1), 1);
    s.subscribe(w(2), 2);
    s.subscribe(w(1), 3);
    assert_eq!(s.subscribers(), &vec![(w(1), 3), (w(2), 2)]);
    s.set("b".to_string(), &vec![false, true]);
    assert_eq!(s.get(), "b");
    assert_eq!(s.subscribers(), &vec![(w(2), 2)]);
    s.update(|v| format!("{v}c"), &vec![true]);
    assert_eq!(s.get(), "bc");
    s.notify(&vec![false]);
    assert!(s.subscribers().is_empty());
}

#[test]
fn retain_flagged_keeps_flagged_in_order() {
    let mut v = vec![10, 20, 30, 40];
    retain_flagged(&mut v, &vec![false, true, true, false]);
    assert_eq!(v, vec![20, 30]);
}

#[test]
fn theme_set_get_remove() {
    let t: Theme<u32> = Theme::new();
    assert!(t.is_empty());
    let t = t.set(1, 10).set(2, 20).set(1, 11);
    assert_eq!(t.get(1), Some(&11));
    assert_eq!(t.get(2), Some(&20));
    assert_eq!(t.get(3), None);
    assert_eq!(t.len(), 2);
    assert!(t.contains(2));
    assert_eq!(t.get_or(3, 99), 99);
    assert_eq!(t.get_or(2, 99), 20);
    let t = t.remove(1);
    assert!(!t.contains(1));
    assert_eq!(t.len(), 1);
    let mut m = t;
    m.set_mut(5, 50);
    m.remove_mut(2);
    m.remove_mut(7);
    assert_eq!(m.get(5), Some(&50));
    assert_eq!(m.keys(), vec![5]);
}

#[test]
fn theme_merge_overrides_and_keeps() {
    let base: Theme<&str> = Theme::new().set(1, "base-1").set(2, "base-2");
    let top: Theme<&str> = Theme::new().set(2, "top-2").set(3, "top-3");
    let merged = base.merge(&top);
    assert_eq!(merged.get(1), Some(&"base-1"));
    assert_eq!(merged.get(2), Some(&"top-2"));
    assert_eq!(merged.get(3), Some(&"top-3"));
    assert_eq!(merged.len(), 3);
    let mut ext: Theme<&str> = Theme::new().set(2, "x");
    ext.extend(&top);
    assert_eq!(ext.get(2), Some(&"top-2"));
    let mut keys = merged.keys();
    keys.sort();
    assert_eq!(keys, vec![1, 2, 3]);
}

#[test]
fn theme_diff_by_token_identity() {
    let base: Theme<u32> = Theme::new().set(1, 1).set(2, 2);
    let top: Theme<u32> = Theme::new().set(2, 2).set(3, 3);
    // A merged theme shares the tokens it took over.
    let merged = base.merge(&top);
    let mut d = merged.diff(&top);
    d.sort();
    assert!(d.is_empty());
    // Keys only in the other theme, and equal but separately set tokens,
    // are reported; keys only in this theme are not.
    let other: Theme<u32> = Theme::new().set(1, 1).set(4, 4);
    let mut d = merged.diff(&other);
    d.sort();
    assert_eq!(d, vec![1, 4]);
}

#[test]
fn theme_clone_shares_tokens() {
    let t: Theme<String> = Theme::new().set(1, "a".to_string()).set(2, "b".to_string());
    let c = t.clone();
    assert_eq!(c.get(1), Some(&"a".to_string()));
    assert_eq!(c.len(), 2);
    assert!(c.diff(&t).is_empty());
    assert!(t.diff(&c).is_empty());
    let d: Theme<String> = Theme::default();
    assert!(d.is_empty());
    // A token set again is a new token, even with an equal value.
    let changed = c.set(2, "b".to_string());
    assert_eq!(t.diff(&changed), vec![2]);
}
