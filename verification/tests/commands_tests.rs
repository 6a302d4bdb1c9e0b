use desktop_portal::commands::{
    add_paths, at_bottom_edge, clear_recent, count_desktop_items, migrate, move_item,
    plan_icon_request, plan_reconcile, plan_restore, record_open, remove_item, rename_item,
    set_settings, sync_desktop_into, EdgeWatch, IconPlan, ReconcilePlan,
};
use desktop_portal::config::{
    norm_path, AppConfig, Category, Item, ItemKind, ItemSource, Recent, Settings, MAX_RECENT,
    SCHEMA_VERSION,
};
use desktop_portal::desktop::Scanned;

fn item(id: &str, path: &str, source: ItemSource) -> Item {
    Item { id: id.into(), name: id.into(), path: path.into(), kind: ItemKind::File, source }
}

fn sc(path: &str) -> Scanned {
    Scanned { path: path.into(), name: path.into(), kind: ItemKind::File }
}

fn desktop_items(n: usize) -> Vec<Item> {
    (0..n).map(|i| item(&format!("d{i}"), &format!("C:\\D\\{i}.txt"), ItemSource::Desktop)).collect()
}

#[test]
fn count_desktop_items_counts_every_category() {
    let mut cfg = AppConfig::default();
    cfg.categories[0].items = desktop_items(3);
    cfg.categories[1].items.push(item("m", "D:\\m", ItemSource::Manual));
    cfg.categories[1].items.push(item("x", "C:\\D\\x", ItemSource::Desktop));
    assert_eq!(count_desktop_items(&cfg), 4);
}

#[test]
fn failed_scan_aborts_without_changes() {
    let mut cfg = AppConfig::default();
    cfg.categories[0].items = desktop_items(2);
    let r = sync_desktop_into(&mut cfg, Err("枚举失败".into()), true);
    assert_eq!(r, Err("枚举失败".to_string()));
    assert_eq!(cfg.categories[0].items.len(), 2);
}

#[test]
fn implicit_sync_refuses_mass_removal() {
    let mut cfg = AppConfig::default();
    cfg.categories[0].items = desktop_items(12);
    let r = sync_desktop_into(&mut cfg, Ok(vec![]), false);
    assert_eq!(
        r,
        Err("本次将移除 12 / 12 个桌面条目，数量异常，已跳过同步以免误删。如果你确实在桌面上删掉了这些文件，点刷新按钮强制执行。"
            .to_string())
    );
    assert_eq!(cfg.categories[0].items.len(), 12);
}

#[test]
fn explicit_refresh_is_obeyed() {
    let mut cfg = AppConfig::default();
    cfg.categories[0].items = desktop_items(12);
    let r = sync_desktop_into(&mut cfg, Ok(vec![]), true).unwrap();
    assert_eq!(r.removed, 12);
    assert!(cfg.categories[0].items.is_empty());
}

#[test]
fn implicit_sync_allows_small_or_minor_removals() {
    // ten removals: not more than ten
    let mut cfg = AppConfig::default();
    cfg.categories[0].items = desktop_items(10);
    assert_eq!(sync_desktop_into(&mut cfg, Ok(vec![]), false).unwrap().removed, 10);
    // eleven of twenty-two: not more than half
    let mut cfg = AppConfig::default();
    cfg.categories[0].items = desktop_items(22);
    let keep: Vec<Scanned> = (11..22).map(|i| sc(&format!("C:\\D\\{i}.txt"))).collect();
    let r = sync_desktop_into(&mut cfg, Ok(keep), false).unwrap();
    assert_eq!(r.removed, 11);
    assert_eq!(cfg.categories[0].items.len(), 11);
}

#[test]
fn add_paths_trims_dedups_and_marks_manual() {
    let mut cfg = AppConfig::default();
    cfg.categories[1].items.push(item("a", "C:\\x\\a.txt", ItemSource::Manual));
    add_paths(
        &mut cfg,
        "study",
        vec![
            "  C:\\x\\b.exe  ".into(),
            "c:/X/A.txt".into(),
            "   ".into(),
            "C:\\x\\b.exe".into(),
        ],
    );
    let items = &cfg.categories[1].items;
    assert_eq!(items.len(), 2);
    assert_eq!(items[1].path, "C:\\x\\b.exe");
    assert_eq!(items[1].name, "b");
    assert_eq!(items[1].kind, ItemKind::App);
    assert_eq!(items[1].source, ItemSource::Manual);
    assert!(items[1].id.starts_with('i'));
}

#[test]
fn add_paths_skips_a_path_another_category_holds() {
    let mut cfg = AppConfig::default();
    cfg.categories[1].items.push(item("a", "C:\\x\\a.txt", ItemSource::Manual));
    add_paths(&mut cfg, "project", vec!["c:/x/A.TXT".into(), "C:\\x\\b.txt".into()]);
    assert_eq!(cfg.categories[1].items.len(), 1);
    let items = &cfg.categories[2].items;
    assert_eq!(items.len(), 1);
    assert_eq!(items[0].path, "C:\\x\\b.txt");
}

#[test]
fn add_paths_to_unknown_category_changes_nothing() {
    let mut cfg = AppConfig::default();
    add_paths(&mut cfg, "nope", vec!["C:\\x".into()]);
    assert!(cfg.categories.iter().all(|c| c.items.is_empty()));
}

#[test]
fn removing_a_desktop_item_ignores_its_path_once() {
    let mut cfg = AppConfig::default();
    cfg.categories[0].items.push(item("d1", "C:\\D\\A.txt", ItemSource::Desktop));
    cfg.categories[0].items.push(item("m1", "C:\\D\\m.txt", ItemSource::Manual));
    cfg.ignored.push("c:\\d\\a.txt".into());
    remove_item(&mut cfg, "desktop", "d1");
    assert_eq!(cfg.categories[0].items.len(), 1);
    assert_eq!(cfg.ignored, vec!["c:\\d\\a.txt".to_string()]);

    let mut cfg = AppConfig::default();
    cfg.categories[0].items.push(item("d1", "C:\\D\\A.txt", ItemSource::Desktop));
    remove_item(&mut cfg, "desktop", "d1");
    assert_eq!(cfg.ignored, vec![norm_path("C:\\D\\A.txt")]);

    remove_item(&mut cfg, "desktop", "m1");
    cfg.categories[0].items.push(item("m1", "C:\\D\\m.txt", ItemSource::Manual));
    remove_item(&mut cfg, "desktop", "m1");
    assert!(cfg.categories[0].items.is_empty());
    assert_eq!(cfg.ignored.len(), 1, "a manual item is never ignored");
}

#[test]
fn rename_item_trims_and_skips_blank() {
    let mut cfg = AppConfig::default();
    cfg.categories[2].items.push(item("p", "C:\\p", ItemSource::Manual));
    rename_item(&mut cfg, "project", "p", "  新名字 ");
    assert_eq!(cfg.categories[2].items[0].name, "新名字");
    rename_item(&mut cfg, "project", "p", "   ");
    assert_eq!(cfg.categories[2].items[0].name, "新名字");
    rename_item(&mut cfg, "study", "p", "别处");
    assert_eq!(cfg.categories[2].items[0].name, "新名字");
}

#[test]
fn record_open_puts_the_path_first_and_caps_the_list() {
    let mut cfg = AppConfig::default();
    for i in 0..MAX_RECENT {
        cfg.recent.push(Recent { name: format!("n{i}"), path: format!("C:\\r\\{i}"), at: 1 });
    }
    record_open(&mut cfg, "c:/R/3", 99);
    assert_eq!(cfg.recent.len(), MAX_RECENT);
    assert_eq!(cfg.recent[0].path, "c:/R/3");
    assert_eq!(cfg.recent[0].at, 99);
    assert_eq!(cfg.recent[0].name, "3");
    assert!(!cfg.recent[1..].iter().any(|r| norm_path(&r.path) == norm_path("c:/R/3")));
    assert_eq!(cfg.recent[1].name, "n0");

    record_open(&mut cfg, "C:\\new.exe", 100);
    assert_eq!(cfg.recent.len(), MAX_RECENT);
    assert_eq!(cfg.recent[0].name, "new");
    assert_eq!(cfg.recent[MAX_RECENT - 1].name, "n18");
}

#[test]
fn clear_recent_and_set_settings() {
    let mut cfg = AppConfig::default();
    record_open(&mut cfg, "C:\\a.txt", 1);
    clear_recent(&mut cfg);
    assert!(cfg.recent.is_empty());
    set_settings(&mut cfg, false, true);
    assert!(!cfg.settings.auto_hide);
    assert!(cfg.settings.autostart);
    assert!(cfg.settings.desktop_icons_were_visible);
}

#[test]
fn move_item_errors_and_moves() {
    let mut cfg = AppConfig::default();
    cfg.categories[0].items.push(item("d1", "C:\\D\\a.txt", ItemSource::Desktop));
    assert_eq!(move_item(&mut cfg, "zz", "study"), Err("找不到条目：zz".to_string()));
    assert_eq!(move_item(&mut cfg, "d1", "nope"), Err("分类不存在：nope".to_string()));
    assert_eq!(move_item(&mut cfg, "d1", "desktop"), Ok(false));
    assert_eq!(move_item(&mut cfg, "d1", "study"), Ok(true));
    assert!(cfg.categories[0].items.is_empty());
    assert_eq!(cfg.categories[1].items.len(), 1);
    assert_eq!(cfg.categories[1].items[0].source, ItemSource::Desktop, "source stays");
}

#[test]
fn move_item_into_a_category_holding_the_path_drops_the_copy() {
    let mut cfg = AppConfig::default();
    cfg.categories[0].items.push(item("d1", "C:\\D\\a.txt", ItemSource::Desktop));
    cfg.categories[1].items.push(item("m1", "c:/d/A.TXT", ItemSource::Manual));
    assert_eq!(move_item(&mut cfg, "d1", "study"), Ok(true));
    assert!(cfg.categories[0].items.is_empty());
    assert_eq!(cfg.categories[1].items.len(), 1);
    assert_eq!(cfg.categories[1].items[0].id, "m1");
}

fn settings() -> Settings {
    AppConfig::default().settings
}

#[test]
fn icon_request_already_satisfied_claims_nothing() {
    let s = settings();
    assert_eq!(plan_icon_request(s, false, true), IconPlan::Record(Settings { hide_desktop_icons: true, ..s }));
    assert_eq!(plan_icon_request(s, true, false), IconPlan::Record(Settings { hide_desktop_icons: false, ..s }));
}

#[test]
fn icon_hide_claims_first_and_can_roll_back() {
    let s = settings();
    match plan_icon_request(s, true, true) {
        IconPlan::Hide { claim, rollback } => {
            assert!(claim.desktop_icons_owned_by_us && claim.hide_desktop_icons);
            assert!(claim.desktop_icons_were_visible);
            assert!(!rollback.desktop_icons_owned_by_us && !rollback.hide_desktop_icons);
            // killed while hidden: the next start shows the icons again
            assert_eq!(
                plan_reconcile(claim, Some(false)),
                ReconcilePlan::Restore {
                    show: true,
                    settings: Settings { desktop_icons_owned_by_us: false, desktop_icons_were_visible: true, ..claim }
                }
            );
            assert_eq!(plan_restore(claim).map(|(show, _)| show), Some(true));
        }
        other => panic!("unexpected plan {other:?}"),
    }
    match plan_icon_request(Settings { hide_desktop_icons: true, ..s }, false, false) {
        IconPlan::Show { release } => {
            assert!(!release.desktop_icons_owned_by_us && !release.hide_desktop_icons);
            assert!(release.desktop_icons_were_visible);
        }
        other => panic!("unexpected plan {other:?}"),
    }
}

#[test]
fn reconcile_cases() {
    let s = settings();
    assert_eq!(plan_reconcile(s, None), ReconcilePlan::Nothing);
    assert_eq!(plan_reconcile(s, Some(true)), ReconcilePlan::Nothing);
    let wants_hidden = Settings { hide_desktop_icons: true, ..s };
    assert_eq!(
        plan_reconcile(wants_hidden, Some(true)),
        ReconcilePlan::Reapply {
            on_success: Settings { desktop_icons_owned_by_us: true, desktop_icons_were_visible: true, ..wants_hidden }
        }
    );
    let owned = Settings { desktop_icons_owned_by_us: true, desktop_icons_were_visible: false, ..s };
    assert_eq!(
        plan_reconcile(owned, Some(false)),
        ReconcilePlan::Restore {
            show: false,
            settings: Settings { desktop_icons_owned_by_us: false, desktop_icons_were_visible: true, ..owned }
        }
    );
}

#[test]
fn restore_touches_nothing_unless_owned_and_is_idempotent() {
    let s = settings();
    assert_eq!(plan_restore(s), None);
    let owned = Settings { desktop_icons_owned_by_us: true, desktop_icons_were_visible: true, ..s };
    let (show, after) = plan_restore(owned).unwrap();
    assert!(show);
    assert!(!after.desktop_icons_owned_by_us);
    assert_eq!(plan_restore(after), None);
}

#[test]
fn edge_watch_fires_once_per_touch() {
    let mut w = EdgeWatch::new();
    assert!(w.step(true, true));
    assert!(!w.step(true, true));
    assert!(!w.step(true, true));
    assert!(!w.step(true, false));
    assert!(w.step(true, true));
    // shown in between: re-armed
    assert!(!w.step(false, true));
    assert!(w.step(true, true));
}

#[test]
fn bottom_edge_is_two_pixels() {
    assert!(at_bottom_edge(1078, 1080));
    assert!(at_bottom_edge(1079, 1080));
    assert!(!at_bottom_edge(1077, 1080));
    assert!(at_bottom_edge(i32::MAX, i32::MIN));
}

#[test]
fn migrate_raises_old_versions_and_normalizes() {
    let mut cfg = AppConfig::default();
    cfg.schema_version = 1;
    cfg.categories = vec![Category {
        id: "study".into(),
        name: "学习".into(),
        items: vec![item("i1", "D:\\课程\\高数", ItemSource::Manual)],
    }];
    assert!(migrate(&mut cfg));
    assert_eq!(cfg.schema_version, SCHEMA_VERSION);
    assert_eq!(cfg.categories[0].id, "desktop");
    assert_eq!(cfg.categories[1].items.len(), 1);
    assert!(!migrate(&mut cfg));
    assert_eq!(cfg.schema_version, SCHEMA_VERSION);
}
