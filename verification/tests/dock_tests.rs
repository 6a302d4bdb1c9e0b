use desktop_portal::desktop_icons::{apply_hidden, icons_visible, DesktopViews, IconAction, IconEvent, IconSwitch};
use desktop_portal::dock::{
    frameless_styles, region_pieces, relayer_style, remember_base, shifted, PanelRect, RegionState,
    RoundRectArgs, WS_CAPTION, WS_CLIPSIBLINGS, WS_EX_APPWINDOW, WS_EX_LAYERED, WS_EX_TOOLWINDOW, WS_POPUP,
    WS_SYSMENU, WS_THICKFRAME,
};
use desktop_portal::hotkey::{is_hotkey_press, HOTKEY_ID, WM_HOTKEY};

fn rect(x: i32, y: i32) -> PanelRect {
    PanelRect { x, y, w: 100, h: 50, radius: 12 }
}

#[test]
fn region_follows_the_remembered_base() {
    let mut st = RegionState::new();
    assert_eq!(shifted(&st, 5), None, "nothing to clip to before the panel is laid out");
    remember_base(&mut st, &[rect(0, 10), rect(120, 20)]);
    assert_eq!(shifted(&st, 0), Some(vec![rect(0, 10), rect(120, 20)]));
    assert_eq!(shifted(&st, -7), Some(vec![rect(0, 3), rect(120, 13)]));
    remember_base(&mut st, &[]);
    assert_eq!(shifted(&st, 1), None);
}

#[test]
fn round_rect_edges_are_exclusive() {
    let pieces = region_pieces(&[rect(10, 20), PanelRect { x: -5, y: 0, w: 0, h: 0, radius: 0 }]);
    assert_eq!(
        pieces,
        vec![
            RoundRectArgs { left: 10, top: 20, right: 111, bottom: 71, ellipse_w: 12, ellipse_h: 12 },
            RoundRectArgs { left: -5, top: 0, right: -4, bottom: 1, ellipse_w: 0, ellipse_h: 0 },
        ]
    );
}

#[test]
fn frame_is_stripped_and_settles() {
    let style = WS_CAPTION | WS_SYSMENU | WS_THICKFRAME | 0x1000_0000;
    let ex = WS_EX_APPWINDOW | 0x100;
    let f = frameless_styles(style, ex);
    assert_eq!(f.style, 0x1000_0000 | WS_POPUP | WS_CLIPSIBLINGS);
    assert_eq!(f.ex_style, WS_EX_TOOLWINDOW | WS_EX_LAYERED);
    assert!(f.changed);
    let again = frameless_styles(f.style, f.ex_style);
    assert_eq!((again.style, again.ex_style), (f.style, f.ex_style));
    assert!(!again.changed, "no drift: the window is left alone");
}

#[test]
fn lost_layering_is_restored_once() {
    assert_eq!(relayer_style(0x80), Some(0x80 | WS_EX_LAYERED));
    assert_eq!(relayer_style(WS_EX_LAYERED | 0x80), None);
}

#[test]
fn hotkey_messages() {
    assert!(is_hotkey_press(WM_HOTKEY, HOTKEY_ID as usize));
    assert!(!is_hotkey_press(WM_HOTKEY, 1));
    assert!(!is_hotkey_press(0x0111, HOTKEY_ID as usize));
}

#[test]
fn icon_visibility_prefers_the_list_view() {
    assert_eq!(icons_visible(None), None);
    assert_eq!(icons_visible(Some(DesktopViews { defview_visible: true, listview_visible: Some(false) })), Some(false));
    assert_eq!(icons_visible(Some(DesktopViews { defview_visible: true, listview_visible: None })), Some(true));
}

fn finish(a: IconAction) -> Result<(), String> {
    match a {
        IconAction::Finish(r) => r,
        other => panic!("expected to finish, got {other:?}"),
    }
}

#[test]
fn switch_does_nothing_when_already_as_wanted() {
    let mut s = IconSwitch::new(true);
    assert_eq!(finish(apply_hidden(&mut s, IconEvent::Visible(Some(false)))), Ok(()));
}

#[test]
fn switch_reports_missing_windows() {
    let mut s = IconSwitch::new(true);
    assert_eq!(finish(apply_hidden(&mut s, IconEvent::Visible(None))), Err("找不到桌面图标窗口".to_string()));
    let mut s = IconSwitch::new(false);
    assert!(matches!(apply_hidden(&mut s, IconEvent::Visible(Some(false))), IconAction::Toggle));
    assert_eq!(finish(apply_hidden(&mut s, IconEvent::Toggled(false))), Err("找不到桌面图标窗口".to_string()));
}

#[test]
fn switch_toggles_then_confirms() {
    let mut s = IconSwitch::new(true);
    assert!(matches!(apply_hidden(&mut s, IconEvent::Visible(Some(true))), IconAction::Toggle));
    assert!(s.expects(&IconEvent::Toggled(true)));
    assert!(!s.expects(&IconEvent::Forced));
    assert!(matches!(apply_hidden(&mut s, IconEvent::Toggled(true)), IconAction::Probe));
    assert_eq!(finish(apply_hidden(&mut s, IconEvent::Visible(Some(false)))), Ok(()));
}

#[test]
fn switch_forces_and_gives_up_after_two_rounds() {
    let mut s = IconSwitch::new(true);
    let mut steps = 0;
    let mut toggles = 0;
    let mut forced = 0;
    let mut action = IconAction::Probe;
    let result = loop {
        steps += 1;
        let event = match action {
            IconAction::Probe => IconEvent::Visible(Some(true)),
            IconAction::Toggle => {
                toggles += 1;
                IconEvent::Toggled(true)
            }
            IconAction::Force(hide) => {
                assert!(hide);
                forced += 1;
                IconEvent::Forced
            }
            IconAction::Finish(r) => break r,
        };
        action = apply_hidden(&mut s, event);
    };
    assert_eq!(result, Err("系统未接受桌面图标切换请求".to_string()));
    assert_eq!(steps, 10);
    assert_eq!(toggles, 2);
    assert_eq!(forced, 2);
}
