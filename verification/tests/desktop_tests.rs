use desktop_portal::config::ItemKind;
use desktop_portal::desktop::{collect_scanned, pick_roots, roots, scan, sort_scanned, DirEntryInfo, Scanned};

fn entry(path: &str, attributes: Option<u32>, is_dir: bool) -> DirEntryInfo {
    DirEntryInfo { path: path.into(), attributes, is_dir }
}

#[test]
fn no_desktop_folder_is_an_error() {
    assert_eq!(scan(0, Ok(vec![])).unwrap_err(), "找不到任何可用的桌面目录");
}

#[test]
fn a_failed_listing_is_never_an_empty_desktop() {
    assert_eq!(scan(2, Err("枚举 C:\\D 失败：denied".into())).unwrap_err(), "枚举 C:\\D 失败：denied");
    assert!(scan(1, Ok(vec![])).unwrap().is_empty());
}

#[test]
fn scan_filters_dedups_and_sorts() {
    let listing = vec![
        entry("C:\\Users\\A\\Desktop\\Zoo.lnk", Some(0x20), false),
        entry("C:\\Users\\A\\Desktop\\desktop.ini", Some(0x20), false),
        entry("C:\\Users\\A\\Desktop\\DESKTOP.INI", None, false),
        entry("C:\\Users\\A\\Desktop\\Thumbs.db", Some(0x6), false),
        entry("C:\\Users\\A\\Desktop\\~$doc.docx", Some(0x2), false),
        entry("C:\\Users\\A\\Desktop\\apple", None, true),
        entry("C:\\Users\\Public\\Desktop\\notes.txt", Some(0), false),
        entry("c:/users/a/desktop/zoo.LNK", Some(0), false),
        entry("C:\\Users\\A\\Desktop\\Notes.TXT", Some(0x1), false),
    ];
    let out = scan(2, Ok(listing)).unwrap();
    let got: Vec<(&str, &str, ItemKind)> =
        out.iter().map(|s| (s.name.as_str(), s.path.as_str(), s.kind)).collect();
    assert_eq!(
        got,
        [
            ("apple", "C:\\Users\\A\\Desktop\\apple", ItemKind::Folder),
            ("Notes.TXT", "C:\\Users\\A\\Desktop\\Notes.TXT", ItemKind::File),
            ("notes.txt", "C:\\Users\\Public\\Desktop\\notes.txt", ItemKind::File),
            ("Zoo", "C:\\Users\\A\\Desktop\\Zoo.lnk", ItemKind::App),
        ]
    );
}

#[test]
fn collect_keeps_the_first_of_equal_paths() {
    let out = collect_scanned(vec![
        entry("C:\\D\\a.txt", None, false),
        entry("c:/d/A.txt", None, false),
    ]);
    assert_eq!(out.len(), 1);
    assert_eq!(out[0].path, "C:\\D\\a.txt");
}

#[test]
fn sort_is_case_insensitive_by_name_then_by_path() {
    let mut v = vec![
        Scanned { path: "p2".into(), name: "B".into(), kind: ItemKind::File },
        Scanned { path: "p9".into(), name: "a".into(), kind: ItemKind::File },
        Scanned { path: "p1".into(), name: "b".into(), kind: ItemKind::File },
    ];
    sort_scanned(&mut v);
    let names: Vec<&str> = v.iter().map(|s| s.name.as_str()).collect();
    assert_eq!(names, ["a", "b", "B"]);
}

#[test]
fn roots_prefers_known_folders_and_dedups() {
    // "/" and "/tmp" exist as directories where the tests run
    let r = roots(vec![Some("/".into()), Some("/".into()), None, Some("/no/such/dir".into())], vec![Some("/tmp".into())]);
    assert_eq!(r, vec!["/".to_string()]);
    let r = roots(vec![None, Some("/no/such/dir".into())], vec![Some("/tmp".into()), None]);
    assert_eq!(r, vec!["/tmp".to_string()]);
    let r = roots(vec![], vec![]);
    assert!(r.is_empty());
}

#[test]
fn pick_roots_keeps_existing_known_folders_once() {
    let r = pick_roots(
        vec![
            Some(("C:\\Users\\A\\Desktop".into(), true)),
            Some(("c:/users/a/desktop/".into(), true)),
            Some(("C:\\Users\\Public\\Desktop".into(), false)),
            None,
        ],
        vec![Some(("D:\\x".into(), true))],
    );
    assert_eq!(r, vec!["C:\\Users\\A\\Desktop".to_string()]);
    let r = pick_roots(
        vec![Some(("C:\\gone".into(), false)), None],
        vec![Some(("D:\\x".into(), true)), Some(("d:/X".into(), true)), Some(("E:\\y".into(), true))],
    );
    assert_eq!(r, vec!["D:\\x".to_string(), "E:\\y".to_string()]);
    assert!(pick_roots(vec![None], vec![Some(("F:\\z".into(), false))]).is_empty());
}
