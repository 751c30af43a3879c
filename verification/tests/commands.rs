use findbar::{
    action_kind, confirms_removal, export_config, insert_position, item_location, ActionKind,
    InsertPosition, SidebarItemInfo,
};

#[test]
fn add_flags_select_a_position() {
    let s = |x: &str| Some(x.to_string());
    assert_eq!(insert_position(true, s("a"), s("b")), InsertPosition::Beginning);
    assert_eq!(insert_position(false, s("a"), s("b")), InsertPosition::Before("a".to_string()));
    assert_eq!(insert_position(false, None, s("b")), InsertPosition::After("b".to_string()));
    assert_eq!(insert_position(false, None, None), InsertPosition::End);
}

#[test]
fn report_labels_are_classified() {
    assert_eq!(action_kind("added"), ActionKind::Added);
    assert_eq!(action_kind("add"), ActionKind::Added);
    assert_eq!(action_kind("removed"), ActionKind::Removed);
    assert_eq!(action_kind("remove"), ActionKind::Removed);
    assert_eq!(action_kind("reordered"), ActionKind::Reordered);
    assert_eq!(action_kind("unchanged"), ActionKind::Unchanged);
    assert_eq!(action_kind("preserve"), ActionKind::Unchanged);
    assert_eq!(action_kind("Added"), ActionKind::Other);
    assert_eq!(action_kind(""), ActionKind::Other);
}

#[test]
fn exported_configuration_names_every_item() {
    let items = vec![
        SidebarItemInfo { id: 1, name: "A".to_string(), path: Some("/a".to_string()), url: None },
        SidebarItemInfo { id: 2, name: "B".to_string(), path: None, url: Some("smb://b".to_string()) },
    ];
    let cfg = export_config(&items, true);
    assert!(cfg.keep_unmanaged);
    assert_eq!(cfg.items.len(), 2);
    assert_eq!(cfg.items[0].name.as_deref(), Some("A"));
    assert_eq!(cfg.items[0].path, "/a");
    assert_eq!(cfg.items[1].path, "~");
    assert!(!export_config(&[], false).keep_unmanaged);
}

#[test]
fn listed_items_point_to_path_then_url() {
    let mut it = SidebarItemInfo { id: 1, name: "A".to_string(), path: Some("/a".to_string()), url: Some("file:///a/".to_string()) };
    assert_eq!(item_location(&it), "/a");
    it.path = None;
    assert_eq!(item_location(&it), "file:///a/");
    it.url = None;
    assert_eq!(item_location(&it), "(unresolved)");
}

#[test]
fn only_y_confirms_removing_everything() {
    assert!(confirms_removal("y\n"));
    assert!(confirms_removal("  Y \r\n"));
    assert!(confirms_removal("\u{3000}y\u{a0}"));
    assert!(!confirms_removal("yes\n"));
    assert!(!confirms_removal("\n"));
    assert!(!confirms_removal(""));
    assert!(!confirms_removal("n"));
    assert!(!confirms_removal("y y"));
}
