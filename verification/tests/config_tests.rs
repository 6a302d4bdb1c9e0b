use desktop_portal::config::{
    add_category, category_uid, desktop_id, detect_kind, display_name, display_name_for,
    is_builtin_category, kind_for, norm_path, now, remove_category, rename_category, uid,
    AppConfig, Category, Item, ItemKind, ItemSource, Recent, Settings, DEFAULT_CATEGORIES,
    DESKTOP_CATEGORY, MAX_CATEGORY_NAME, MAX_RECENT, SCHEMA_VERSION,
};
use desktop_portal::desktop::Scanned;
use desktop_portal::sync::sync;

#[test]
fn normalize_is_idempotent_and_puts_desktop_first() {
    let mut cfg = AppConfig::default();
    cfg.normalize();

    assert_eq!(cfg.categories.first().unwrap().id, DESKTOP_CATEGORY.0);

    let before: Vec<String> = cfg.categories.iter().map(|c| c.id.clone()).collect();
    cfg.normalize();
    let after: Vec<String> = cfg.categories.iter().map(|c| c.id.clone()).collect();
    assert_eq!(before, after, "normalize 必须幂等");
}

#[test]
fn normalize_reorders_when_desktop_is_last() {
    let mut cfg = AppConfig::default();
    let pos = cfg.categories.iter().position(|c| c.id == DESKTOP_CATEGORY.0).unwrap();
    let d = cfg.categories.remove(pos);
    cfg.categories.push(d);

    cfg.normalize();
    assert_eq!(cfg.categories.first().unwrap().id, DESKTOP_CATEGORY.0);
}

#[test]
fn normalize_keeps_unknown_categories_after_known_ones() {
    let mut cfg = AppConfig::default();
    cfg.categories.push(Category {
        id: "custom".into(),
        name: "自定义".into(),
        items: Vec::new(),
    });
    cfg.normalize();

    let ids: Vec<&str> = cfg.categories.iter().map(|c| c.id.as_str()).collect();
    assert_eq!(ids[0], DESKTOP_CATEGORY.0);
    assert_eq!(ids[ids.len() - 1], "custom", "未知分类应保留且排在已知分类之后");
    assert!(ids.contains(&"study"));
}

#[test]
fn user_categories_keep_their_order_through_normalize() {
    let mut cfg = AppConfig::default();
    add_category(&mut cfg, "摄影").unwrap();
    add_category(&mut cfg, "实习").unwrap();
    add_category(&mut cfg, "MAD工程").unwrap();

    cfg.normalize();

    let tail: Vec<&str> = cfg.categories[5..].iter().map(|c| c.name.as_str()).collect();
    assert_eq!(tail, ["摄影", "实习", "MAD工程"], "收藏夹顺序是用户自己排的，不能被重排");
    assert_eq!(cfg.categories.len(), 8, "四个固定 + 桌面 + 三个收藏夹");
}

#[test]
fn add_category_rejects_blank_long_and_duplicate_names() {
    let mut cfg = AppConfig::default();

    assert!(add_category(&mut cfg, "   ").is_err(), "空名要挡掉");
    assert!(add_category(&mut cfg, &"字".repeat(MAX_CATEGORY_NAME + 1)).is_err());
    assert!(add_category(&mut cfg, "学习").is_err(), "不能和内置分类重名");

    add_category(&mut cfg, "摄影").unwrap();
    assert!(add_category(&mut cfg, "摄影").is_err(), "不能重名");
    assert!(add_category(&mut cfg, " 摄影 ").is_err(), "去掉空白后重名同样要挡");
    assert_eq!(cfg.categories.len(), 6, "被拒绝的三次一个都不该进配置");
}

#[test]
fn rename_cannot_touch_builtin_categories() {
    let mut cfg = AppConfig::default();
    for id in ["desktop", "study", "project", "mad", "fun"] {
        assert!(is_builtin_category(id));
        assert!(rename_category(&mut cfg, id, "新名字").is_err());
        assert!(remove_category(&mut cfg, id).is_err());
    }
}

#[test]
fn removing_category_only_drops_the_mapping() {
    let mut cfg = AppConfig::default();
    let id = add_category(&mut cfg, "摄影").unwrap();
    cfg.categories
        .iter_mut()
        .find(|c| c.id == id)
        .unwrap()
        .items
        .push(Item {
            id: "d1".into(),
            name: "照片".into(),
            path: "C:\\Users\\A\\Desktop\\照片".into(),
            kind: ItemKind::Folder,
            source: ItemSource::Desktop,
        });

    remove_category(&mut cfg, &id).unwrap();

    assert!(!cfg.categories.iter().any(|c| c.id == id));
    assert!(cfg.ignored.is_empty(), "绝不能把桌面条目写进忽略名单，否则它永远回不到「桌面」");

    let scanned = vec![Scanned {
        path: "C:\\Users\\A\\Desktop\\照片".into(),
        name: "照片".into(),
        kind: ItemKind::Folder,
    }];
    sync(&mut cfg, &scanned);
    let desktop = cfg.categories.iter().find(|c| c.id == DESKTOP_CATEGORY.0).unwrap();
    assert_eq!(desktop.items.len(), 1, "文件还在，就应该重新出现在「桌面」里");
}

#[test]
fn norm_path_ignores_separators_case_and_trailing_slash() {
    assert_eq!(norm_path("C:\\Users\\A\\Desktop"), norm_path("c:/users/a/desktop/"));
}

#[test]
fn desktop_id_is_stable_across_path_spellings() {
    let a = desktop_id("C:\\Users\\A\\Desktop\\微信.lnk");
    let b = desktop_id("c:/users/a/desktop/微信.lnk");
    assert_eq!(a, b, "同一路径的不同写法必须得到同一个 id");
    assert_ne!(a, desktop_id("C:\\Users\\A\\Desktop\\QQ.lnk"));
}

#[test]
fn ignored_list_is_deduped_by_normalized_path() {
    let mut cfg = AppConfig::default();
    cfg.ignored = vec!["C:\\a\\b".into(), "c:/A/B/".into(), "C:\\c".into()];
    cfg.normalize();
    assert_eq!(cfg.ignored.len(), 2);
}

// ---------------------------------------------------------------------------

#[test]
fn default_config_has_the_builtin_categories_in_order() {
    let cfg = AppConfig::default();
    let ids: Vec<&str> = cfg.categories.iter().map(|c| c.id.as_str()).collect();
    assert_eq!(ids, ["desktop", "study", "project", "mad", "fun"]);
    assert_eq!(cfg.categories[0].name, "桌面");
    assert_eq!(cfg.categories[1].name, DEFAULT_CATEGORIES[0].1);
    assert_eq!(cfg.schema_version, SCHEMA_VERSION);
    assert!(cfg.recent.is_empty() && cfg.ignored.is_empty());
    assert!(cfg.settings.auto_hide);
    assert!(!cfg.settings.autostart);
    assert!(!cfg.settings.hide_desktop_icons);
    assert!(!cfg.settings.desktop_icons_owned_by_us);
    assert!(cfg.settings.desktop_icons_were_visible);
}

#[test]
fn normalize_adds_missing_builtins_and_keeps_items() {
    let mut cfg = AppConfig::default();
    cfg.categories = vec![Category {
        id: "study".into(),
        name: "学习".into(),
        items: vec![Item {
            id: "i1".into(),
            name: "高数".into(),
            path: "D:\\课程\\高数".into(),
            kind: ItemKind::Folder,
            source: ItemSource::Manual,
        }],
    }];
    cfg.normalize();
    let ids: Vec<&str> = cfg.categories.iter().map(|c| c.id.as_str()).collect();
    assert_eq!(ids, ["desktop", "study", "project", "mad", "fun"]);
    assert_eq!(cfg.categories[1].items.len(), 1);
    assert_eq!(cfg.categories[1].items[0].name, "高数");
}

#[test]
fn normalize_truncates_recent_list() {
    let mut cfg = AppConfig::default();
    for i in 0..(MAX_RECENT + 5) {
        cfg.recent.push(desktop_portal::config::Recent {
            name: format!("n{i}"),
            path: format!("C:\\p{i}"),
            at: i as u64,
        });
    }
    cfg.normalize();
    assert_eq!(cfg.recent.len(), MAX_RECENT);
    assert_eq!(cfg.recent[0].name, "n0");
}

#[test]
fn normalize_keeps_duplicate_builtin_after_the_known_ones() {
    let mut cfg = AppConfig::default();
    cfg.categories.push(Category { id: "study".into(), name: "学习2".into(), items: Vec::new() });
    cfg.normalize();
    assert_eq!(cfg.categories.len(), 6);
    assert_eq!(cfg.categories[1].name, "学习");
    assert_eq!(cfg.categories[5].name, "学习2");
}

#[test]
fn norm_path_exact_value() {
    assert_eq!(norm_path("C:/Users/A/Desktop\\\\"), "c:\\users\\a\\desktop");
    assert_eq!(norm_path("\\\\"), "");
    assert_eq!(norm_path("Ä/B"), "Ä\\b");
}

#[test]
fn norm_path_is_a_fixed_point() {
    let k = norm_path("C:/Users/A/Desktop/");
    assert_eq!(norm_path(&k), k);
}

#[test]
fn desktop_id_exact_value() {
    // FNV-1a 64 of the bytes of "c:\d\new.txt"
    assert_eq!(desktop_id("C:\\D\\new.txt"), "d5d199ed090b648cc");
    assert_eq!(desktop_id("C:/Users/A/Desktop/微信.lnk"), "dc51ddaccb1739979");
    assert_eq!(desktop_id("").len(), 17);
    assert_eq!(desktop_id(""), "dcbf29ce484222325");
}

#[test]
fn uids_are_clock_readings_with_a_prefix() {
    let a = uid();
    assert!(a.starts_with('i'));
    assert!(a.len() > 1 && a[1..].chars().all(|c| c.is_ascii_digit()));
    let c = category_uid();
    assert!(c.starts_with('u'));
    assert!(c[1..].chars().all(|c| c.is_ascii_digit()));
    assert!(now() > 1_600_000_000);
}

#[test]
fn add_category_error_messages() {
    let mut cfg = AppConfig::default();
    assert_eq!(add_category(&mut cfg, "  \t "), Err("名字不能为空".to_string()));
    assert_eq!(add_category(&mut cfg, &"字".repeat(11)), Err("名字最多 10 个字".to_string()));
    assert_eq!(add_category(&mut cfg, "学习"), Err("已经有叫「学习」的分类了".to_string()));
    let id = add_category(&mut cfg, " 十个字的名字正好十个 ").unwrap();
    assert!(id.starts_with('u'));
    let last = cfg.categories.last().unwrap();
    assert_eq!(last.name, "十个字的名字正好十个");
    assert_eq!(last.id, id);
    assert!(last.items.is_empty());
}

#[test]
fn rename_and_remove_category_errors_and_success() {
    let mut cfg = AppConfig::default();
    assert_eq!(rename_category(&mut cfg, "study", "x"), Err("内置分类不能改名".to_string()));
    assert_eq!(remove_category(&mut cfg, "fun"), Err("内置分类不能删除".to_string()));
    assert_eq!(rename_category(&mut cfg, "nope", "x"), Err("分类不存在".to_string()));
    assert_eq!(remove_category(&mut cfg, "nope"), Err("分类不存在".to_string()));

    let a = add_category(&mut cfg, "甲").unwrap();
    let b = add_category(&mut cfg, "乙").unwrap();
    assert_eq!(rename_category(&mut cfg, &a, " 乙 "), Err("已经有叫「乙」的分类了".to_string()));
    assert_eq!(rename_category(&mut cfg, &a, ""), Err("名字不能为空".to_string()));
    // renaming to its own name is allowed
    assert_eq!(rename_category(&mut cfg, &b, "乙"), Ok(()));
    assert_eq!(rename_category(&mut cfg, &a, " 丙 "), Ok(()));
    assert_eq!(cfg.categories[5].name, "丙");
    assert_eq!(remove_category(&mut cfg, &a), Ok(()));
    assert_eq!(cfg.categories.len(), 6);
    assert_eq!(cfg.categories[5].id, b);
}

#[test]
fn kinds_and_display_names() {
    assert_eq!(kind_for("C:\\Apps\\Code.exe", false), ItemKind::App);
    assert_eq!(kind_for("C:\\Apps\\Tool.LNK", false), ItemKind::App);
    assert_eq!(kind_for("C:\\x\\run.bat", false), ItemKind::App);
    assert_eq!(kind_for("C:\\x\\setup.msi", false), ItemKind::App);
    assert_eq!(kind_for("C:\\x\\site.url", false), ItemKind::App);
    assert_eq!(kind_for("C:\\x\\go.cmd", false), ItemKind::App);
    assert_eq!(kind_for("C:\\x\\notes.txt", false), ItemKind::File);
    assert_eq!(kind_for("C:\\x\\noext", false), ItemKind::File);
    assert_eq!(kind_for("C:\\x\\Code.exe", true), ItemKind::Folder);

    assert_eq!(display_name_for("C:\\Apps\\Code.exe", false), "Code");
    assert_eq!(display_name_for("C:\\Docs\\report.docx", false), "report.docx");
    assert_eq!(display_name_for("C:\\Docs\\Folder.exe", true), "Folder.exe");
    assert_eq!(display_name_for("C:/Users/A/Desktop/微信.lnk", false), "微信");
    assert_eq!(display_name_for("C:\\", true), "C:\\");
    assert_eq!(display_name_for("C:\\x\\..", true), "C:\\x\\..");
}

#[test]
fn detect_kind_asks_the_disk() {
    assert_eq!(detect_kind("/"), ItemKind::Folder);
    assert_eq!(detect_kind("/definitely/not/here/app.exe"), ItemKind::App);
    assert_eq!(display_name("/definitely/not/here/app.exe"), "app");
}

#[test]
fn items_without_a_source_count_as_manual() {
    assert_eq!(ItemSource::default(), ItemSource::Manual);
    assert_eq!(desktop_portal::config::default_schema_version(), 1);
}

fn v1_category(id: &str, name: &str, items: Vec<Item>) -> Category {
    Category { id: id.into(), name: name.into(), items }
}

fn v1_item(id: &str, name: &str, path: &str, kind: ItemKind) -> Item {
    // A stored item without a "source" field reads as Manual.
    Item { id: id.into(), name: name.into(), path: path.into(), kind, source: ItemSource::Manual }
}

/// The value a stored v1 configuration reads as: no schema version (read as 1),
/// no ignore list, and settings with only the two fields it knew.
#[test]
fn v1_config_migrates_without_data_loss() {
    let mut cfg = AppConfig {
        schema_version: 1,
        categories: vec![
            v1_category(
                "study",
                "学习",
                vec![v1_item("i1", "高数", "D:\\课程\\高数", ItemKind::Folder)],
            ),
            v1_category("project", "项目", vec![]),
            v1_category("mad", "MAD", vec![]),
            v1_category(
                "fun",
                "娱乐",
                vec![v1_item("i2", "Steam", "C:\\x\\steam.exe", ItemKind::App)],
            ),
        ],
        recent: vec![Recent { name: "高数".into(), path: "D:\\课程\\高数".into(), at: 1757000000 }],
        settings: Settings { autostart: false, auto_hide: true, ..Settings::default() },
        ignored: vec![],
    };
    cfg.normalize();

    assert_eq!(cfg.schema_version, 1, "旧配置没有版本号 → 视为 1");
    assert!(cfg.ignored.is_empty());

    let study = cfg.categories.iter().find(|c| c.id == "study").unwrap();
    assert_eq!(study.items.len(), 1, "旧条目一条都不能丢");
    assert_eq!(study.items[0].name, "高数");
    assert_eq!(
        study.items[0].source,
        ItemSource::Manual,
        "旧条目必须视为 Manual，否则会被同步引擎误删"
    );

    let fun = cfg.categories.iter().find(|c| c.id == "fun").unwrap();
    assert_eq!(fun.items.len(), 1, "其他分类的条目同样不能丢");

    assert!(
        cfg.categories.iter().any(|c| c.id == DESKTOP_CATEGORY.0),
        "缺失的「桌面」分类应被补出来"
    );
    assert_eq!(cfg.recent.len(), 1);

    assert!(!cfg.settings.hide_desktop_icons);
    assert!(!cfg.settings.desktop_icons_owned_by_us);
    assert!(cfg.settings.auto_hide, "原有字段值必须保留");
}

#[test]
fn display_name_handles_path_prefixes() {
    // A share root has no file name: the whole path is shown.
    assert_eq!(display_name_for("\\\\server\\share", true), "\\\\server\\share");
    assert_eq!(display_name_for("\\\\server\\share\\dir", true), "dir");
    assert_eq!(display_name_for("//server/share/app.exe", false), "app");
    assert_eq!(display_name_for("\\\\.\\COM1", false), "\\\\.\\COM1");
    // Only `\` separates components in a verbatim path, and `.` stays.
    assert_eq!(display_name_for("\\\\?\\C:\\tools\\a/b.txt", false), "a/b.txt");
    assert_eq!(display_name_for("\\\\?\\C:\\dir\\.", true), "\\\\?\\C:\\dir\\.");
    assert_eq!(display_name_for("\\\\?\\UNC\\server\\share", true), "\\\\?\\UNC\\server\\share");
    // A drive-relative path names its last component.
    assert_eq!(display_name_for("C:notes.txt", false), "notes.txt");
}

#[test]
fn add_category_succeeds_beside_clock_like_ids() {
    let mut cfg = AppConfig::default();
    for v in 0..3 {
        cfg.categories.push(Category { id: format!("u{v}"), name: format!("旧{v}"), items: vec![] });
    }
    let id = add_category(&mut cfg, "新的").unwrap();
    assert!(id.starts_with('u') && id[1..].chars().all(|c| c.is_ascii_digit()));
    assert_eq!(cfg.categories.iter().filter(|c| c.id == id).count(), 1);
    assert_eq!(cfg.categories.last().unwrap().name, "新的");
}
