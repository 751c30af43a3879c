use findbar::{
    add_favorite, order_favorites, prepare_entry, remove_favorite, sync_favorites, AddError,
    AddFacts, Anchor, EntryFacts, FindbarConfig, InsertPosition, ListedItem, Move, PathFacts,
    SidebarChange, SidebarEntry, SidebarItemInfo,
};

/// Facts of a path that exists nowhere on disk and needs no expansion.
fn plain(p: &str) -> PathFacts {
    PathFacts { expanded: Some(p.to_string()), canonical: None, cwd: Some("/cwd".to_string()) }
}

fn item(id: u32, name: &str, path: &str) -> ListedItem {
    ListedItem {
        info: SidebarItemInfo {
            id,
            name: name.to_string(),
            path: Some(path.to_string()),
            url: Some(format!("file://{}/", path)),
        },
        facts: plain(path),
    }
}

fn entry(name: Option<&str>, path: &str) -> SidebarEntry {
    SidebarEntry { name: name.map(|s| s.to_string()), path: path.to_string() }
}

fn entry_facts(path: &str) -> EntryFacts {
    EntryFacts { path: plain(path), resolved: plain(path) }
}

fn config(entries: Vec<SidebarEntry>, keep_unmanaged: bool) -> (FindbarConfig, Vec<EntryFacts>) {
    let facts = entries.iter().map(|e| entry_facts(&e.path)).collect();
    (FindbarConfig { items: entries, keep_unmanaged }, facts)
}

fn add_facts(path: &str, target: &str) -> AddFacts {
    AddFacts { path: plain(path), resolved: plain(path), target: plain(target) }
}

fn sidebar() -> Vec<ListedItem> {
    vec![
        item(1, "Applications", "/Applications"),
        item(2, "Downloads", "/Users/me/Downloads"),
        item(3, "Music", "/Users/me/Music"),
    ]
}

#[test]
fn remove_by_name_ignores_case() {
    let items = sidebar();
    assert_eq!(remove_favorite("downloads", &plain("downloads"), &items), Some(1));
    assert_eq!(remove_favorite("MUSIC", &plain("MUSIC"), &items), Some(2));
}

#[test]
fn remove_by_path_ignores_case_and_trailing_slash() {
    let items = sidebar();
    let target = "/users/me/music/";
    assert_eq!(remove_favorite(target, &plain(target), &items), Some(2));
}

#[test]
fn remove_finds_nothing_or_the_first_match() {
    let items = sidebar();
    assert_eq!(remove_favorite("Pictures", &plain("Pictures"), &items), None);
    let mut twice = sidebar();
    twice.push(item(9, "Music", "/Other/Music"));
    assert_eq!(remove_favorite("Music", &plain("Music"), &twice), Some(2));
    assert_eq!(remove_favorite("x", &plain("x"), &Vec::new()), None);
}

#[test]
fn add_at_the_ends() {
    let items = sidebar();
    let plan = add_favorite("/Pics", Some("P"), &InsertPosition::End, false, &add_facts("/Pics", ""), &items).unwrap();
    assert_eq!(plan.path, "/Pics");
    assert_eq!(plan.name.as_deref(), Some("P"));
    assert_eq!(plan.anchor, Anchor::End);
    let plan = add_favorite("/Pics", None, &InsertPosition::Beginning, false, &add_facts("/Pics", ""), &items).unwrap();
    assert_eq!(plan.name, None);
    assert_eq!(plan.anchor, Anchor::Beginning);
}

#[test]
fn add_before_and_after_an_item() {
    let items = sidebar();
    let pos = InsertPosition::Before("Downloads".to_string());
    let plan = add_favorite("/Pics", None, &pos, false, &add_facts("/Pics", "Downloads"), &items).unwrap();
    assert_eq!(plan.anchor, Anchor::After { index: 0 });
    let pos = InsertPosition::Before("/Applications".to_string());
    let plan = add_favorite("/Pics", None, &pos, false, &add_facts("/Pics", "/Applications"), &items).unwrap();
    assert_eq!(plan.anchor, Anchor::Beginning);
    let pos = InsertPosition::After("music".to_string());
    let plan = add_favorite("/Pics", None, &pos, false, &add_facts("/Pics", "music"), &items).unwrap();
    assert_eq!(plan.anchor, Anchor::After { index: 2 });
}

#[test]
fn add_before_goes_after_the_item_preceding_the_first_with_that_id() {
    let items = vec![item(7, "A", "/a"), item(8, "B", "/b"), item(7, "C", "/c")];
    let pos = InsertPosition::Before("C".to_string());
    let plan = add_favorite("/x", None, &pos, false, &add_facts("/x", "C"), &items).unwrap();
    assert_eq!(plan.anchor, Anchor::Beginning);
}

#[test]
fn add_refuses_a_duplicate_unless_forced() {
    let items = sidebar();
    let p = "/users/me/downloads/";
    let err = add_favorite(p, None, &InsertPosition::End, false, &add_facts(p, ""), &items).unwrap_err();
    assert_eq!(err, AddError::Duplicate { name: "Downloads".to_string(), id: 2 });
    let plan = add_favorite(p, None, &InsertPosition::End, true, &add_facts(p, ""), &items).unwrap();
    assert_eq!(plan.path, p);
}

#[test]
fn add_refuses_an_unknown_target() {
    let items = sidebar();
    let pos = InsertPosition::After("Nowhere".to_string());
    let err = add_favorite("/x", None, &pos, false, &add_facts("/x", "Nowhere"), &items).unwrap_err();
    assert_eq!(err, AddError::TargetNotFound { target: "Nowhere".to_string() });
}

#[test]
fn add_refuses_a_path_that_does_not_expand() {
    let items = sidebar();
    let f = AddFacts {
        path: PathFacts { expanded: None, canonical: None, cwd: None },
        resolved: plain(""),
        target: plain(""),
    };
    let err = add_favorite("$NOPE", None, &InsertPosition::End, false, &f, &items).unwrap_err();
    assert_eq!(err, AddError::Expansion { input: "$NOPE".to_string() });
}

#[test]
fn prepared_entries_are_normalized() {
    let e = entry(None, "rel/Dir/");
    let f = EntryFacts {
        path: PathFacts { expanded: Some("rel/Dir/".to_string()), canonical: None, cwd: Some("/Home".to_string()) },
        resolved: plain("/Home/rel/Dir/"),
    };
    let d = prepare_entry(&e, &f);
    assert_eq!(d.path, "/Home/rel/Dir/");
    assert_eq!(d.key, "/home/rel/dir");
    assert_eq!(d.name, None);
}

#[test]
fn sync_when_already_matching_changes_nothing() {
    let items = sidebar();
    let (cfg, facts) = config(
        vec![entry(Some("Applications"), "/Applications"), entry(None, "/Users/me/Downloads"), entry(None, "/Users/me/Music/")],
        false,
    );
    let plan = sync_favorites(&cfg, &facts, &items, false);
    assert!(plan.changes.is_empty());
    assert!(!plan.reorder);
    assert_eq!(plan.report.unchanged, 3);
    assert_eq!((plan.report.added, plan.report.removed, plan.report.reordered), (0, 0, 0));
    assert_eq!(plan.report.actions.len(), 3);
    assert_eq!(plan.report.actions[1].action, "unchanged");
    assert_eq!(plan.report.actions[1].name, "Downloads");
    assert_eq!(plan.report.actions[2].name, "Music");
    assert_eq!(plan.report.actions[2].path.as_deref(), Some("/Users/me/Music/"));
    assert_eq!(plan.report.actions[0].reason.as_deref(), Some("Already matches target state"));
}

#[test]
fn a_different_name_is_no_match() {
    let items = sidebar();
    let (cfg, facts) = config(
        vec![entry(Some("Apps"), "/Applications"), entry(None, "/Users/me/Downloads"), entry(None, "/Users/me/Music")],
        false,
    );
    let plan = sync_favorites(&cfg, &facts, &items, false);
    assert!(plan.changes.is_empty());
    assert!(plan.reorder);
    assert_eq!(plan.report.unchanged, 3);
    assert_eq!(plan.report.actions[0].action, "unchanged");
    assert_eq!(plan.report.actions[0].reason.as_deref(), Some("Item already exists"));
}

#[test]
fn sync_removes_unmanaged_and_appends_missing() {
    let items = sidebar();
    let (cfg, facts) = config(vec![entry(None, "/Users/me/Music"), entry(Some("Code"), "/Dev")], false);
    let plan = sync_favorites(&cfg, &facts, &items, false);
    assert_eq!((plan.report.added, plan.report.removed, plan.report.unchanged), (1, 2, 1));
    assert_eq!(plan.changes.len(), 3);
    assert!(matches!(plan.changes[0], SidebarChange::Remove { index: 0 }));
    assert!(matches!(plan.changes[1], SidebarChange::Remove { index: 1 }));
    match &plan.changes[2] {
        SidebarChange::Append { name, path } => {
            assert_eq!(name.as_deref(), Some("Code"));
            assert_eq!(path, "/Dev");
        }
        other => panic!("unexpected change {:?}", other),
    }
    assert!(plan.reorder);
    let labels: Vec<&str> = plan.report.actions.iter().map(|a| a.action.as_str()).collect();
    assert_eq!(labels, vec!["removed", "removed", "unchanged", "added"]);
    assert_eq!(plan.report.actions[0].name, "Applications");
    assert_eq!(plan.report.actions[0].reason.as_deref(), Some("Unmanaged item"));
    assert_eq!(plan.report.actions[3].reason.as_deref(), Some("Missing from sidebar"));
    assert_eq!(plan.report.actions[2].name, "Music");
}

#[test]
fn sync_keeps_unmanaged_items_when_asked() {
    let items = sidebar();
    let (cfg, facts) = config(vec![entry(None, "/Dev")], true);
    let plan = sync_favorites(&cfg, &facts, &items, false);
    assert_eq!(plan.report.removed, 0);
    assert_eq!(plan.changes.len(), 1);
    assert!(matches!(plan.changes[0], SidebarChange::Append { .. }));
    assert_eq!(plan.report.actions.len(), 1);
}

#[test]
fn a_dry_run_previews_without_changes() {
    let items = sidebar();
    let (cfg, facts) = config(vec![entry(None, "/Users/me/Music"), entry(None, "/Dev")], false);
    let dry = sync_favorites(&cfg, &facts, &items, true);
    let live = sync_favorites(&cfg, &facts, &items, false);
    assert!(dry.changes.is_empty());
    assert!(!dry.reorder);
    assert_eq!(dry.report.actions.len(), live.report.actions.len());
    for (d, l) in dry.report.actions.iter().zip(live.report.actions.iter()) {
        assert_eq!((&d.name, &d.path, &d.reason), (&l.name, &l.path, &l.reason));
    }
    let labels: Vec<&str> = dry.report.actions.iter().map(|a| a.action.as_str()).collect();
    assert_eq!(labels, vec!["remove", "remove", "preserve", "add"]);
    assert_eq!((dry.report.added, dry.report.removed, dry.report.unchanged), (1, 2, 1));
}

#[test]
fn an_empty_configuration_removes_everything_and_does_not_reorder() {
    let items = sidebar();
    let (cfg, facts) = config(vec![], false);
    let plan = sync_favorites(&cfg, &facts, &items, false);
    assert_eq!(plan.changes.len(), 3);
    assert!(!plan.reorder);
}

#[test]
fn order_moves_declared_items_first() {
    let current = vec![
        item(1, "Applications", "/Applications"),
        item(2, "Downloads", "/Users/me/Downloads"),
        item(3, "Music", "/Users/me/Music"),
        item(4, "Dev", "/Dev"),
    ];
    let (cfg, facts) = config(vec![entry(None, "/Dev"), entry(None, "/Missing"), entry(None, "/Applications")], true);
    let plan = sync_favorites(&cfg, &facts, &current, true);
    let moves = order_favorites(&plan.desired, &current);
    assert_eq!(moves, vec![Move::ToBeginning { item: 3 }, Move::After { item: 0, anchor: 3 }]);
}

#[test]
fn order_does_not_move_an_item_already_first() {
    let current = sidebar();
    let (cfg, facts) = config(vec![entry(None, "/Applications"), entry(None, "/Users/me/Music")], true);
    let plan = sync_favorites(&cfg, &facts, &current, true);
    let moves = order_favorites(&plan.desired, &current);
    assert_eq!(moves, vec![Move::After { item: 2, anchor: 0 }]);
    let none = order_favorites(&Vec::new(), &current);
    assert!(none.is_empty());
}

/// Carries out moves on a list of positions, as Finder would.
fn apply(order: &mut Vec<usize>, m: &Move) {
    match *m {
        Move::ToBeginning { item } => {
            order.retain(|&x| x != item);
            order.insert(0, item);
        }
        Move::After { item, anchor } => {
            if item != anchor {
                order.retain(|&x| x != item);
                let p = order.iter().position(|&x| x == anchor).unwrap();
                order.insert(p + 1, item);
            }
        }
    }
}

#[test]
fn a_live_sync_then_ordering_leaves_the_declared_paths_in_order() {
    let existing = vec![
        item(1, "Applications", "/Applications"),
        item(2, "Music", "/Users/me/Music"),
        item(3, "Tmp", "/tmp"),
        item(4, "Downloads", "/Users/me/Downloads"),
    ];
    let (cfg, facts) = config(
        vec![entry(None, "/Users/me/Downloads"), entry(Some("Code"), "/Dev"), entry(None, "/Users/me/Music")],
        false,
    );
    let plan = sync_favorites(&cfg, &facts, &existing, false);
    let mut sidebar: Vec<ListedItem> = existing;
    let mut removed = vec![];
    let mut next_id = 10;
    let mut appended = vec![];
    for c in &plan.changes {
        match c {
            SidebarChange::Remove { index } => removed.push(*index),
            SidebarChange::Append { name, path } => {
                appended.push(item(next_id, name.as_deref().unwrap_or("x"), path));
                next_id += 1;
            }
        }
    }
    let mut kept: Vec<ListedItem> = vec![];
    for (i, it) in sidebar.drain(..).enumerate() {
        if !removed.contains(&i) {
            kept.push(it);
        }
    }
    kept.extend(appended);
    let moves = order_favorites(&plan.desired, &kept);
    let mut order: Vec<usize> = (0..kept.len()).collect();
    for m in &moves {
        apply(&mut order, m);
    }
    let paths: Vec<&str> = order.iter().map(|&i| kept[i].info.path.as_deref().unwrap()).collect();
    assert_eq!(paths, vec!["/Users/me/Downloads", "/Dev", "/Users/me/Music"]);

    // A second sync on the result finds nothing to do.
    let mut slots: Vec<Option<ListedItem>> = kept.into_iter().map(Some).collect();
    let settled: Vec<ListedItem> = order.iter().map(|&i| slots[i].take().unwrap()).collect();
    let again = sync_favorites(&cfg, &facts, &settled, false);
    assert!(again.changes.is_empty());
    assert!(!again.reorder);
    assert_eq!(again.report.unchanged, 3);
    assert!(again.report.actions.iter().all(|a| a.reason.as_deref() == Some("Already matches target state")));
}

#[test]
fn a_kept_item_with_another_name_needs_nothing_more() {
    let existing = vec![item(1, "Developer", "/Dev"), item(2, "Apps", "/Applications")];
    let (cfg, facts) = config(vec![entry(Some("Code"), "/Dev"), entry(None, "/Applications")], false);
    let plan = sync_favorites(&cfg, &facts, &existing, false);
    assert!(plan.changes.is_empty());
    assert!(plan.reorder);
    assert_eq!((plan.report.added, plan.report.removed, plan.report.unchanged), (0, 0, 2));
    assert_eq!(plan.report.actions[0].reason.as_deref(), Some("Item already exists"));
    let moves = order_favorites(&plan.desired, &existing);
    let mut order: Vec<usize> = (0..existing.len()).collect();
    for m in &moves {
        apply(&mut order, m);
    }
    assert_eq!(order, vec![0, 1]);
}

#[test]
fn a_sync_keeping_unmanaged_items_puts_declared_ones_first() {
    let existing = vec![
        item(1, "Applications", "/Applications"),
        item(2, "Music", "/Users/me/Music"),
        item(3, "Tmp", "/tmp"),
        item(4, "Downloads", "/Users/me/Downloads"),
    ];
    let (cfg, facts) = config(
        vec![entry(None, "/Users/me/Downloads"), entry(Some("Code"), "/Dev"), entry(None, "/Users/me/Music")],
        true,
    );
    let plan = sync_favorites(&cfg, &facts, &existing, false);
    assert_eq!(plan.report.removed, 0);
    let mut after = existing;
    for c in &plan.changes {
        match c {
            SidebarChange::Remove { .. } => panic!("nothing is removed"),
            SidebarChange::Append { name, path } => after.push(item(10, name.as_deref().unwrap_or("x"), path)),
        }
    }
    let moves = order_favorites(&plan.desired, &after);
    let mut order: Vec<usize> = (0..after.len()).collect();
    for m in &moves {
        apply(&mut order, m);
    }
    let paths: Vec<&str> = order.iter().map(|&i| after[i].info.path.as_deref().unwrap()).collect();
    assert_eq!(paths, vec!["/Users/me/Downloads", "/Dev", "/Users/me/Music", "/Applications", "/tmp"]);

    let mut slots: Vec<Option<ListedItem>> = after.into_iter().map(Some).collect();
    let settled: Vec<ListedItem> = order.iter().map(|&i| slots[i].take().unwrap()).collect();
    let again = sync_favorites(&cfg, &facts, &settled, false);
    assert!(again.changes.is_empty());
    assert_eq!((again.report.added, again.report.removed, again.report.unchanged), (0, 0, 3));
    let moves = order_favorites(&again.desired, &settled);
    let mut order: Vec<usize> = (0..settled.len()).collect();
    for m in &moves {
        apply(&mut order, m);
    }
    assert_eq!(order, vec![0, 1, 2, 3, 4]);
}

#[test]
fn syncing_an_exported_configuration_changes_nothing() {
    let items = sidebar();
    let infos: Vec<SidebarItemInfo> = items.iter().map(|it| it.info.clone()).collect();
    let cfg = findbar::export_config(&infos, false);
    let facts: Vec<EntryFacts> = cfg.items.iter().map(|e| entry_facts(&e.path)).collect();
    for dry_run in [false, true] {
        let plan = sync_favorites(&cfg, &facts, &items, dry_run);
        assert!(plan.changes.is_empty());
        assert!(!plan.reorder);
        assert_eq!((plan.report.added, plan.report.removed, plan.report.unchanged), (0, 0, 3));
        assert!(plan.report.actions.iter().all(|a| a.reason.as_deref() == Some("Already matches target state")));
    }
}

#[test]
fn a_second_sync_is_idle_with_two_items_at_one_declared_path() {
    let existing = vec![item(1, "Dev", "/Dev"), item(2, "Tmp", "/tmp"), item(3, "Dev again", "/Dev")];
    let (cfg, facts) = config(vec![entry(None, "/Dev"), entry(None, "/Apps")], false);
    let plan = sync_favorites(&cfg, &facts, &existing, false);
    assert_eq!(plan.report.removed, 1);
    let mut after: Vec<ListedItem> = existing.into_iter().enumerate().filter(|(i, _)| *i != 1).map(|(_, it)| it).collect();
    after.push(item(10, "x", "/Apps"));
    let moves = order_favorites(&plan.desired, &after);
    let mut order: Vec<usize> = (0..after.len()).collect();
    for m in &moves {
        apply(&mut order, m);
    }
    let mut slots: Vec<Option<ListedItem>> = after.into_iter().map(Some).collect();
    let settled: Vec<ListedItem> = order.iter().map(|&i| slots[i].take().unwrap()).collect();
    let paths: Vec<&str> = settled.iter().map(|it| it.info.path.as_deref().unwrap()).collect();
    assert_eq!(paths, vec!["/Dev", "/Apps", "/Dev"]);
    let again = sync_favorites(&cfg, &facts, &settled, false);
    assert!(again.changes.is_empty());
    assert_eq!((again.report.added, again.report.removed, again.report.unchanged), (0, 0, 2));
    let moves = order_favorites(&again.desired, &settled);
    let mut order: Vec<usize> = (0..settled.len()).collect();
    for m in &moves {
        apply(&mut order, m);
    }
    assert_eq!(order, vec![0, 1, 2]);
}
