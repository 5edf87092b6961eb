use phosphor_ui::halogen::tree::{child_effect, commit_hook, reconcile_children, ChildDesc, ChildEffect, Effect, Hook};
use phosphor_ui::halogen::widget::WidgetKey;
use phosphor_ui::ids::WidgetId;
use phosphor_ui::phosphor::matching::plan_children;
use phosphor_ui::phosphor::tree::{DispatchStep, NodeSpec, WalkStep, WidgetTree};

fn desc(key: Option<WidgetKey>, type_tag: u64) -> ChildDesc {
    ChildDesc { key, type_tag }
}

fn spec(key: Option<&str>, type_tag: u64) -> NodeSpec {
    NodeSpec { key: key.map(|k| k.to_string()), type_tag }
}

#[test]
fn halogen_keyed_children_follow_their_keys() {
    let old = vec![desc(Some(WidgetKey::Str("a")), 1), desc(Some(WidgetKey::Str("b")), 1)];
    let new = vec![desc(Some(WidgetKey::Str("b")), 1), desc(Some(WidgetKey::Str("a")), 1)];
    let m = reconcile_children(&old, &new);
    assert_eq!(m.matches, vec![Some(1), Some(0)]);
    assert!(m.unmounted.is_empty());
}

#[test]
fn halogen_unkeyed_children_match_by_type_in_order() {
    let old = vec![desc(None, 1), desc(None, 2), desc(None, 1)];
    let new = vec![desc(None, 1), desc(None, 1), desc(None, 2), desc(None, 2)];
    let m = reconcile_children(&old, &new);
    assert_eq!(m.matches, vec![Some(0), Some(2), Some(1), None]);
    assert!(m.unmounted.is_empty());
}

#[test]
fn halogen_unmatched_children_are_unmounted() {
    let old = vec![
        desc(Some(WidgetKey::Int(1)), 1),
        desc(Some(WidgetKey::Int(2)), 1),
        desc(None, 3),
        desc(Some(WidgetKey::Int(3)), 1),
    ];
    let new = vec![desc(Some(WidgetKey::Int(2)), 1)];
    let m = reconcile_children(&old, &new);
    assert_eq!(m.matches, vec![Some(1)]);
    assert_eq!(m.unmounted, vec![0, 2, 3]);
}

#[test]
fn halogen_duplicate_keys() {
    // Among rendered children sharing a key the last one is taken; the
    // shadowed earlier one is dropped without an unmount.
    let old = vec![desc(Some(WidgetKey::Str("k")), 1), desc(Some(WidgetKey::Str("k")), 1)];
    let new = vec![desc(Some(WidgetKey::Str("k")), 1), desc(Some(WidgetKey::Str("k")), 1)];
    let m = reconcile_children(&old, &new);
    assert_eq!(m.matches, vec![Some(1), None]);
    assert!(m.unmounted.is_empty());
}

#[test]
fn phosphor_plan_matches_keys_then_positions() {
    let old = vec![spec(Some("x"), 1), spec(None, 2), spec(None, 3), spec(Some("y"), 4)];
    let new = vec![spec(None, 9), spec(Some("y"), 9), spec(Some("z"), 9), spec(None, 9), spec(None, 9)];
    assert_eq!(plan_children(&old, &new), vec![Some(1), Some(3), None, Some(2), None]);
    let dup = vec![spec(Some("y"), 1), spec(Some("y"), 1)];
    assert_eq!(plan_children(&old, &dup), vec![Some(3), None]);
}

#[test]
fn phosphor_set_root_mounts_one_widget() {
    let mut t: WidgetTree<u32> = WidgetTree::new(7);
    assert_eq!(t.root(), None);
    assert_eq!(t.widget_count(), 0);
    let (root, removed) = t.set_root(spec(None, 1));
    assert!(removed.is_empty());
    assert_eq!(t.root(), Some(root));
    assert_eq!(t.widget_count(), 1);
    assert_eq!(t.children_of(root), Some(vec![]));
    assert_eq!(*t.theme(), 7);
    // Replacing the root removes the old one.
    let (root2, removed2) = t.set_root(spec(None, 2));
    assert_eq!(removed2, vec![root]);
    assert_eq!(t.root(), Some(root2));
    assert_eq!(t.widget_count(), 1);
    assert_eq!(t.children_of(root), None);
}

#[test]
fn phosphor_reconcile_reuses_matching_widgets() {
    let mut t: WidgetTree<()> = WidgetTree::new(());
    let (root, _) = t.set_root(spec(None, 1));
    let first = t.reconcile(root, vec![spec(Some("a"), 2), spec(None, 3)]);
    assert_eq!(first.reused, vec![false, false]);
    assert!(first.removed.is_empty());
    assert_eq!(t.widget_count(), 3);
    let a = first.children[0];
    let u = first.children[1];
    let second = t.reconcile(root, vec![spec(None, 3), spec(Some("a"), 2)]);
    assert_eq!(second.children, vec![u, a]);
    assert_eq!(second.reused, vec![true, true]);
    assert!(second.removed.is_empty());
    assert_eq!(t.children_of(root), Some(vec![u, a]));
}

#[test]
fn phosphor_reconcile_replaces_on_type_change_and_drops_unmatched() {
    let mut t: WidgetTree<()> = WidgetTree::new(());
    let (root, _) = t.set_root(spec(None, 1));
    let first = t.reconcile(root, vec![spec(Some("a"), 2), spec(None, 3)]);
    let a = first.children[0];
    let u = first.children[1];
    let grand = t.reconcile(a, vec![spec(None, 4)]).children[0];
    assert_eq!(t.widget_count(), 4);
    let out = t.reconcile(root, vec![spec(Some("a"), 5)]);
    assert_eq!(out.reused, vec![false]);
    assert_ne!(out.children[0], a);
    let mut removed = out.removed.clone();
    removed.sort_by_key(|w| w.raw);
    let mut expected = vec![a, u, grand];
    expected.sort_by_key(|w| w.raw);
    assert_eq!(removed, expected);
    assert_eq!(t.widget_count(), 2);
}

#[test]
fn phosphor_remove_subtree_takes_descendants() {
    let mut t: WidgetTree<()> = WidgetTree::new(());
    let (root, _) = t.set_root(spec(None, 1));
    let kids = t.reconcile(root, vec![spec(None, 2), spec(None, 3)]).children;
    let g = t.reconcile(kids[0], vec![spec(None, 4)]).children[0];
    let mut removed = t.remove_subtree(kids[0]);
    removed.sort_by_key(|w| w.raw);
    let mut expected = vec![kids[0], g];
    expected.sort_by_key(|w| w.raw);
    assert_eq!(removed, expected);
    assert_eq!(t.children_of(root), Some(vec![kids[1]]));
    assert_eq!(t.widget_count(), 2);
    assert!(t.remove_subtree(kids[0]).is_empty());
}

#[test]
fn phosphor_rebuild_walk_visits_parents_first() {
    let mut t: WidgetTree<()> = WidgetTree::new(());
    let (root, _) = t.set_root(spec(None, 1));
    let mut walk = t.rebuild_begin().expect("a new root is dirty");
    assert_eq!(t.rebuild_step(&mut walk), WalkStep::Build(root));
    let kids = t.reconcile(root, vec![spec(None, 2), spec(None, 3)]).children;
    assert_eq!(t.rebuild_step(&mut walk), WalkStep::Build(kids[0]));
    assert_eq!(t.rebuild_step(&mut walk), WalkStep::Build(kids[1]));
    assert_eq!(t.rebuild_step(&mut walk), WalkStep::Done);
    // Everything is clean now.
    assert!(!t.any_dirty());
    assert!(t.rebuild_begin().is_none());
    // A queued widget is rebuilt; its clean parent is only visited.
    t.mark_dirty(kids[1]);
    let mut walk = t.rebuild_begin().expect("a widget is queued");
    assert_eq!(t.rebuild_step(&mut walk), WalkStep::Visit(root));
    assert_eq!(t.rebuild_step(&mut walk), WalkStep::Visit(kids[0]));
    assert_eq!(t.rebuild_step(&mut walk), WalkStep::Build(kids[1]));
    assert_eq!(t.rebuild_step(&mut walk), WalkStep::Done);
}

#[test]
fn phosphor_set_theme_queues_every_widget() {
    let mut t: WidgetTree<u8> = WidgetTree::new(1);
    let (root, _) = t.set_root(spec(None, 1));
    let kids = t.reconcile(root, vec![spec(None, 2)]).children;
    let mut walk = t.rebuild_begin().unwrap();
    while t.rebuild_step(&mut walk) != WalkStep::Done {}
    assert!(t.rebuild_begin().is_none());
    t.set_theme(2);
    assert_eq!(*t.theme(), 2);
    let mut walk = t.rebuild_begin().expect("all widgets queued");
    assert_eq!(t.rebuild_step(&mut walk), WalkStep::Build(root));
    assert_eq!(t.rebuild_step(&mut walk), WalkStep::Build(kids[0]));
    assert_eq!(t.rebuild_step(&mut walk), WalkStep::Done);
}

#[test]
fn phosphor_dispatch_offers_deepest_first() {
    let mut t: WidgetTree<()> = WidgetTree::new(());
    let (root, _) = t.set_root(spec(None, 1));
    let kids = t.reconcile(root, vec![spec(None, 2), spec(None, 3)]).children;
    let g = t.reconcile(kids[0], vec![spec(None, 4)]).children[0];
    let mut walk = t.dispatch_begin(true);
    let mut offered: Vec<WidgetId> = Vec::new();
    loop {
        match t.dispatch_step(&mut walk) {
            DispatchStep::Offer(w) => {
                offered.push(w);
                walk.report(false);
            },
            DispatchStep::Visit(_) => {},
            DispatchStep::Done => break,
        }
    }
    assert_eq!(offered, vec![kids[1], g, kids[0], root]);
    assert!(!walk.consumed());
    let empty: WidgetTree<()> = WidgetTree::new(());
    let mut walk = empty.dispatch_begin(true);
    assert_eq!(empty.dispatch_step(&mut walk), DispatchStep::Done);
    assert!(!walk.consumed());
}

#[test]
fn phosphor_dispatch_stops_at_first_consumer() {
    let mut t: WidgetTree<()> = WidgetTree::new(());
    let (root, _) = t.set_root(spec(None, 1));
    let kids = t.reconcile(root, vec![spec(None, 2), spec(None, 3)]).children;
    let g = t.reconcile(kids[0], vec![spec(None, 4)]).children[0];
    let mut walk = t.dispatch_begin(true);
    let mut offered: Vec<WidgetId> = Vec::new();
    loop {
        match t.dispatch_step(&mut walk) {
            DispatchStep::Offer(w) => {
                offered.push(w);
                walk.report(w == g);
            },
            DispatchStep::Visit(_) => {},
            DispatchStep::Done => break,
        }
    }
    assert_eq!(offered, vec![kids[1], g]);
    assert!(walk.consumed());
}

#[test]
fn phosphor_dispatch_custom_events_reach_no_widget() {
    let mut t: WidgetTree<()> = WidgetTree::new(());
    let (root, _) = t.set_root(spec(None, 1));
    t.reconcile(root, vec![spec(None, 2)]);
    let mut walk = t.dispatch_begin(false);
    assert_eq!(t.dispatch_step(&mut walk), DispatchStep::Done);
    assert!(!walk.consumed());
}

#[test]
fn phosphor_set_root_replaces_every_widget() {
    let mut t: WidgetTree<()> = WidgetTree::new(());
    let (r1, _) = t.set_root(spec(None, 1));
    let kids = t.reconcile(r1, vec![spec(None, 2), spec(None, 3)]).children;
    let (r2, removed) = t.set_root(spec(None, 5));
    assert_eq!(t.widget_count(), 1);
    assert_eq!(t.root(), Some(r2));
    assert!(r2 != r1 && r2 != kids[0] && r2 != kids[1]);
    assert_eq!(removed.len(), 3);
    assert!(t.children_of(r1).is_none());
}

#[test]
fn phosphor_mark_dirty_ignores_unmounted_widgets() {
    let mut t: WidgetTree<()> = WidgetTree::new(());
    let (root, _) = t.set_root(spec(None, 1));
    let kid = t.reconcile(root, vec![spec(None, 2)]).children[0];
    let mut walk = t.rebuild_begin().unwrap();
    while t.rebuild_step(&mut walk) != WalkStep::Done {}
    t.reconcile(root, vec![]);
    t.mark_dirty(kid);
    assert!(t.rebuild_begin().is_none());
}

#[test]
fn halogen_same_children_stay_in_place() {
    let kids = || {
        vec![
            desc(Some(WidgetKey::Str("a")), 1),
            desc(None, 2),
            desc(Some(WidgetKey::Int(7)), 3),
            desc(None, 2),
        ]
    };
    let m = reconcile_children(&kids(), &kids());
    assert_eq!(m.matches, vec![Some(0), Some(1), Some(2), Some(3)]);
    assert!(m.unmounted.is_empty());
}

#[test]
fn halogen_keyed_match_ignores_type() {
    let old = vec![desc(Some(WidgetKey::Int(1)), 1)];
    let new = vec![desc(Some(WidgetKey::Int(1)), 2)];
    let m = reconcile_children(&old, &new);
    assert_eq!(m.matches, vec![Some(0)]);
}

#[test]
fn phosphor_same_children_are_all_reused() {
    let mut t: WidgetTree<()> = WidgetTree::new(());
    let (root, _) = t.set_root(spec(None, 1));
    let list = || vec![spec(Some("x"), 2), spec(None, 3), spec(None, 3), spec(Some("y"), 4)];
    let first = t.reconcile(root, list());
    let second = t.reconcile(root, list());
    assert_eq!(second.children, first.children);
    assert_eq!(second.reused, vec![true, true, true, true]);
    assert!(second.removed.is_empty());
    assert_eq!(t.widget_count(), 5);
}

#[test]
fn phosphor_rebuild_pass_clears_every_flag() {
    let mut t: WidgetTree<()> = WidgetTree::new(());
    let (root, _) = t.set_root(spec(None, 1));
    let mut walk = t.rebuild_begin().expect("the new root is dirty");
    let mut built: Vec<WidgetId> = Vec::new();
    loop {
        match t.rebuild_step(&mut walk) {
            WalkStep::Build(id) => {
                built.push(id);
                // The root builds two children; each child builds none.
                if id == root {
                    t.reconcile(id, vec![spec(None, 2), spec(None, 3)]);
                } else {
                    t.reconcile(id, vec![]);
                }
            },
            WalkStep::Visit(_) => {},
            WalkStep::Done => break,
        }
    }
    assert_eq!(built.len(), 3);
    assert_eq!(built[0], root);
    assert!(!t.any_dirty());
    assert!(t.rebuild_begin().is_none());
}

#[test]
fn phosphor_reconcile_mounts_fresh_handles() {
    let mut t: WidgetTree<()> = WidgetTree::new(());
    let (root, _) = t.set_root(spec(None, 1));
    let first = t.reconcile(root, vec![spec(None, 2), spec(None, 3)]).children;
    // Both children change type: both are removed and two new ones mounted,
    // reusing the freed slots under new handles.
    let out = t.reconcile(root, vec![spec(None, 4), spec(None, 5)]);
    assert_eq!(out.reused, vec![false, false]);
    assert_eq!(out.removed.len(), 2);
    for id in &out.children {
        assert!(!first.contains(id));
        assert!(*id != root);
    }
    assert_eq!(t.widget_count(), 3);
}

#[test]
fn halogen_child_effects() {
    assert_eq!(child_effect(None, 0), ChildEffect::Mount);
    assert_eq!(child_effect(Some(2), 2), ChildEffect::Stay);
    assert_eq!(child_effect(Some(0), 1), ChildEffect::Moved);
}

#[test]
fn halogen_commit_hooks() {
    let id = WidgetId::from_raw(0x1_0000_0001);
    assert_eq!(commit_hook(Effect::Mount(id), true), Some(Hook::OnMount(id)));
    assert_eq!(commit_hook(Effect::Mount(id), false), None);
    assert_eq!(commit_hook(Effect::Moved(id), true), Some(Hook::OnMoved(id)));
    assert_eq!(commit_hook(Effect::Moved(id), false), None);
    assert_eq!(commit_hook(Effect::Unmount(id), false), Some(Hook::OnUnmount(id)));
}
