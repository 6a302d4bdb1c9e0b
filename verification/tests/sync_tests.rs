use desktop_portal::config::{desktop_id, AppConfig, Category, Item, ItemKind, ItemSource, DESKTOP_CATEGORY};
use desktop_portal::desktop::Scanned;
use desktop_portal::sync::{sync, SyncReport};

fn sc(path: &str, name: &str) -> Scanned {
    Scanned { path: path.into(), name: name.into(), kind: ItemKind::File }
}

fn item(id: &str, path: &str, name: &str, source: ItemSource) -> Item {
    Item { id: id.into(), name: name.into(), path: path.into(), kind: ItemKind::File, source }
}

fn cat(id: &str, items: Vec<Item>) -> Category {
    Category { id: id.into(), name: id.into(), items }
}

#[test]
fn moved_item_stays_in_its_category() {
    let mut cfg = AppConfig::default();
    cfg.categories = vec![
        cat(DESKTOP_CATEGORY.0, vec![]),
        cat("study", vec![item("d1", "C:\\D\\a.txt", "a", ItemSource::Desktop)]),
    ];

    let report = sync(&mut cfg, &[sc("C:\\D\\a.txt", "a")]);

    assert_eq!(report.removed, 0);
    assert_eq!(report.added, 0, "已认领的路径不该在「桌面」再放一份");
    assert_eq!(cfg.categories[1].items.len(), 1, "必须留在「学习」");
    assert!(cfg.categories[0].items.is_empty(), "不该被拽回「桌面」");
}

#[test]
fn deleted_from_desktop_removes_from_any_category() {
    let mut cfg = AppConfig::default();
    cfg.categories = vec![
        cat(DESKTOP_CATEGORY.0, vec![item("d1", "C:\\D\\gone.txt", "gone", ItemSource::Desktop)]),
        cat("study", vec![item("d2", "C:\\D\\also.txt", "also", ItemSource::Desktop)]),
    ];

    let report = sync(&mut cfg, &[]);

    assert_eq!(report.removed, 2);
    assert!(cfg.categories[0].items.is_empty());
    assert!(cfg.categories[1].items.is_empty(), "别的分类里也要移除");
}

#[test]
fn manual_items_are_never_touched() {
    let mut cfg = AppConfig::default();
    cfg.categories = vec![
        cat(DESKTOP_CATEGORY.0, vec![]),
        cat("study", vec![item("m1", "D:\\笔记\\x.md", "x", ItemSource::Manual)]),
    ];

    let report = sync(&mut cfg, &[]);

    assert_eq!(report.removed, 0);
    assert_eq!(cfg.categories[1].items.len(), 1, "手动条目不能被同步删掉");
}

#[test]
fn existing_manual_item_is_adopted_in_place() {
    let mut cfg = AppConfig::default();
    cfg.categories = vec![
        cat(DESKTOP_CATEGORY.0, vec![]),
        cat("study", vec![item("m1", "C:\\D\\a.txt", "我改过的名字", ItemSource::Manual)]),
    ];

    let report = sync(&mut cfg, &[sc("C:\\D\\a.txt", "a.txt")]);

    assert_eq!(report.adopted, 1);
    assert_eq!(report.added, 0, "不该产生重复条目");
    assert_eq!(cfg.categories[1].items.len(), 1);
    assert_eq!(cfg.categories[1].items[0].source, ItemSource::Desktop);
    assert_eq!(cfg.categories[1].items[0].name, "我改过的名字", "收养不得改写用户重命名过的名字");
}

#[test]
fn new_desktop_file_lands_in_desktop_category() {
    let mut cfg = AppConfig::default();
    let report = sync(&mut cfg, &[sc("C:\\D\\new.txt", "new.txt")]);

    assert_eq!(report.added, 1);
    let d = cfg.categories.iter().find(|c| c.id == DESKTOP_CATEGORY.0).unwrap();
    assert_eq!(d.items.len(), 1);
    assert_eq!(d.items[0].id, desktop_id("C:\\D\\new.txt"), "id 应由路径派生");
    assert_eq!(d.items[0].source, ItemSource::Desktop);
}

#[test]
fn sync_is_idempotent() {
    let mut cfg = AppConfig::default();
    let snap = vec![sc("C:\\D\\b.txt", "b.txt"), sc("C:\\D\\a.txt", "a.txt")];

    let first = sync(&mut cfg, &snap);
    assert_eq!(first.added, 2);

    let second = sync(&mut cfg, &snap);
    assert_eq!(second, SyncReport::default(), "第二次不该有任何变化");
}

#[test]
fn path_matching_is_case_and_separator_insensitive() {
    let mut cfg = AppConfig::default();
    cfg.categories = vec![
        cat(DESKTOP_CATEGORY.0, vec![]),
        cat("study", vec![item("d1", "C:\\D\\A.txt", "A", ItemSource::Desktop)]),
    ];

    let report = sync(&mut cfg, &[sc("c:/d/a.txt", "A")]);

    assert_eq!(report.removed, 0, "不该因为写法不同就误删");
    assert_eq!(report.added, 0, "也不该重复添加");
}

#[test]
fn only_desktop_category_is_sorted() {
    let mut cfg = AppConfig::default();
    cfg.categories = vec![
        cat(DESKTOP_CATEGORY.0, vec![]),
        cat(
            "study",
            vec![
                item("m1", "D:\\z", "z", ItemSource::Manual),
                item("m2", "D:\\a", "a", ItemSource::Manual),
            ],
        ),
    ];

    sync(&mut cfg, &[sc("C:\\D\\z.txt", "z.txt"), sc("C:\\D\\a.txt", "a.txt")]);

    let d = &cfg.categories[0];
    assert_eq!(d.items[0].name, "a.txt", "桌面分类应按名字排序");
    let s = &cfg.categories[1];
    assert_eq!(s.items[0].name, "z", "人工分类不能被动排序");
    assert_eq!(s.items[1].name, "a");
}

// ---------------------------------------------------------------------------

#[test]
fn report_changed_and_default() {
    let r = SyncReport::default();
    assert_eq!((r.added, r.removed, r.adopted), (0, 0, 0));
    assert!(!r.changed());
    assert!(SyncReport { added: 0, removed: 1, adopted: 0 }.changed());
    assert!(SyncReport { added: 0, removed: 0, adopted: 3 }.changed());
}

#[test]
fn desktop_sort_ignores_case_then_uses_path() {
    let mut cfg = AppConfig::default();
    sync(
        &mut cfg,
        &[sc("C:\\D\\2\\b", "B"), sc("C:\\D\\a", "a"), sc("C:\\D\\1\\b", "b")],
    );
    let names: Vec<(&str, &str)> =
        cfg.categories[0].items.iter().map(|i| (i.name.as_str(), i.path.as_str())).collect();
    assert_eq!(names, [("a", "C:\\D\\a"), ("b", "C:\\D\\1\\b"), ("B", "C:\\D\\2\\b")]);
}

#[test]
fn without_desktop_category_new_entries_are_skipped() {
    let mut cfg = AppConfig::default();
    cfg.categories = vec![cat("study", vec![item("m1", "C:\\D\\a.txt", "mine", ItemSource::Manual)])];
    let report = sync(&mut cfg, &[sc("C:\\D\\a.txt", "a.txt"), sc("C:\\D\\b.txt", "b.txt")]);
    assert_eq!(report, SyncReport { added: 0, removed: 0, adopted: 1 });
    assert_eq!(cfg.categories.len(), 1);
    assert_eq!(cfg.categories[0].items.len(), 1);
    // a second run has nothing to do
    let again = sync(&mut cfg, &[sc("C:\\D\\a.txt", "a.txt"), sc("C:\\D\\b.txt", "b.txt")]);
    assert!(!again.changed());
}

#[test]
fn duplicate_snapshot_entries_add_one_item() {
    let mut cfg = AppConfig::default();
    let report = sync(&mut cfg, &[sc("C:\\D\\a.txt", "a.txt"), sc("c:/d/A.TXT", "A.TXT")]);
    assert_eq!(report.added, 1);
    assert_eq!(cfg.categories[0].items.len(), 1);
    assert_eq!(cfg.categories[0].items[0].name, "a.txt");
}

#[test]
fn adoption_picks_the_first_holder_and_refreshes_the_kind() {
    let mut cfg = AppConfig::default();
    let mut first = item("m1", "C:\\D\\x", "first", ItemSource::Manual);
    first.kind = ItemKind::File;
    cfg.categories = vec![
        cat(DESKTOP_CATEGORY.0, vec![]),
        cat("study", vec![first]),
        cat("fun", vec![item("m2", "c:/d/x/", "second", ItemSource::Manual)]),
    ];
    let scanned = [Scanned { path: "C:\\D\\x".into(), name: "x".into(), kind: ItemKind::Folder }];
    let report = sync(&mut cfg, &scanned);
    assert_eq!(report, SyncReport { added: 0, removed: 0, adopted: 1 });
    assert_eq!(cfg.categories[1].items[0].source, ItemSource::Desktop);
    assert_eq!(cfg.categories[1].items[0].kind, ItemKind::Folder);
    assert_eq!(cfg.categories[2].items[0].source, ItemSource::Manual);
}

#[test]
fn sync_keeps_other_fields() {
    let mut cfg = AppConfig::default();
    cfg.ignored = vec!["c:\\x".into()];
    cfg.settings.autostart = true;
    cfg.recent.push(desktop_portal::config::Recent { name: "r".into(), path: "C:\\r".into(), at: 7 });
    sync(&mut cfg, &[sc("C:\\D\\n.txt", "n.txt")]);
    assert_eq!(cfg.ignored, vec!["c:\\x".to_string()]);
    assert!(cfg.settings.autostart);
    assert_eq!(cfg.recent.len(), 1);
    let ids: Vec<&str> = cfg.categories.iter().map(|c| c.id.as_str()).collect();
    assert_eq!(ids, ["desktop", "study", "project", "mad", "fun"]);
}

#[test]
fn paths_removed_from_the_dock_are_not_imported_again() {
    let mut cfg = AppConfig::default();
    cfg.categories[0].items.push(item("d1", "C:\\D\\x.txt", "x", ItemSource::Desktop));
    desktop_portal::commands::remove_item(&mut cfg, "desktop", "d1");
    assert_eq!(cfg.ignored, vec!["c:\\d\\x.txt".to_string()]);

    let report = sync(&mut cfg, &[sc("C:\\D\\x.txt", "x.txt"), sc("C:\\D\\y.txt", "y.txt")]);
    assert_eq!(report, SyncReport { added: 1, removed: 0, adopted: 0 });
    let names: Vec<&str> = cfg.categories[0].items.iter().map(|i| i.name.as_str()).collect();
    assert_eq!(names, ["y.txt"]);

    // dropped back in by hand, it is adopted again
    cfg.categories[1].items.push(item("m1", "c:/d/X.txt", "mine", ItemSource::Manual));
    let report = sync(&mut cfg, &[sc("C:\\D\\x.txt", "x.txt"), sc("C:\\D\\y.txt", "y.txt")]);
    assert_eq!(report, SyncReport { added: 0, removed: 0, adopted: 1 });
    assert_eq!(cfg.categories[1].items[0].source, ItemSource::Desktop);
}

#[test]
fn each_desktop_path_ends_with_one_desktop_item() {
    let mut cfg = AppConfig::default();
    cfg.categories = vec![
        cat(DESKTOP_CATEGORY.0, vec![item("d1", "C:\\D\\old.txt", "old", ItemSource::Desktop)]),
        cat("study", vec![item("m1", "C:\\D\\notes.txt", "notes", ItemSource::Manual)]),
    ];
    let snapshot = [sc("C:\\D\\old.txt", "old"), sc("c:/d/NOTES.txt", "notes"), sc("C:\\D\\new.txt", "new")];
    sync(&mut cfg, &snapshot);
    for key in ["c:\\d\\old.txt", "c:\\d\\notes.txt", "c:\\d\\new.txt"] {
        let holders: Vec<&Item> = cfg
            .categories
            .iter()
            .flat_map(|c| c.items.iter())
            .filter(|it| desktop_portal::config::norm_path(&it.path) == key)
            .collect();
        assert_eq!(holders.len(), 1, "{key}");
        assert_eq!(holders[0].source, ItemSource::Desktop, "{key}");
    }
}

#[test]
fn desktop_category_holds_survivors_plus_added_sorted() {
    let mut cfg = AppConfig::default();
    cfg.categories = vec![
        cat(
            DESKTOP_CATEGORY.0,
            vec![
                item("d1", "C:\\D\\zeta.txt", "zeta", ItemSource::Desktop),
                item("d2", "C:\\D\\gone.txt", "gone", ItemSource::Desktop),
                item("m1", "D:\\mine", "Mine", ItemSource::Manual),
            ],
        ),
        cat("study", vec![]),
    ];
    let report = sync(&mut cfg, &[sc("C:\\D\\zeta.txt", "zeta"), sc("C:\\D\\alpha.txt", "alpha")]);
    assert_eq!(report.removed, 1);
    assert_eq!(report.added, 1);
    let names: Vec<&str> = cfg.categories[0].items.iter().map(|i| i.name.as_str()).collect();
    assert_eq!(names, vec!["alpha", "Mine", "zeta"]);
    assert!(cfg.categories[1].items.is_empty());
}
