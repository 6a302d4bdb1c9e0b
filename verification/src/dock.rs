//! The dock window: its region (the panel modules as rounded rectangles, the
//! gaps between them not part of the window at all) and its window styles
//! (no system frame, ever).
use vstd::prelude::*;

verus! {

/// One panel module inside the window, in physical pixels relative to the
/// top-left corner of the client area.
#[derive(Clone, Copy, Debug, PartialEq, Eq, Structural)]
pub struct PanelRect {
    pub x: i32,
    pub y: i32,
    pub w: i32,
    pub h: i32,
    pub radius: i32,
}

/// The remembered base rectangles of the window region, without the offset
/// of the slide animation. The offset is applied on top each time the region
/// is rebuilt, so the animation never has to measure the modules again.
pub struct RegionState {
    pub base: Vec<PanelRect>,
}

impl RegionState {
    /// Nothing remembered yet: the panel has not been laid out.
    pub fn new() -> (s: Self)
        ensures
            s.base@.len() == 0,
    {
        RegionState { base: Vec::new() }
    }
}

/// Remembers `rects` as the base of the window region.
pub fn remember_base(state: &mut RegionState, rects: &[PanelRect])
    ensures
        final(state).base@ == rects@,
{
    let mut v: Vec<PanelRect> = Vec::new();
    let mut i: usize = 0;
    while i < rects.len()
        invariant
            i <= rects.len(),
            v@ == rects@.take(i as int),
        decreases rects.len() - i,
    {
        v.push(rects[i]);
        assert(rects@.take(i + 1) =~= rects@.take(i as int).push(rects@[i as int]));
        i += 1;
    }
    assert(rects@.take(i as int) =~= rects@);
    state.base = v;
}

/// `r` moved down by `dy` pixels.
pub open spec fn moved(r: PanelRect, dy: int) -> PanelRect {
    PanelRect { y: (r.y + dy) as i32, ..r }
}

/// Every base rectangle can be moved down by `dy` without leaving `i32`.
pub open spec fn offset_fits(base: Seq<PanelRect>, dy: int) -> bool {
    forall|i: int| 0 <= i < base.len() ==> i32::MIN <= (#[trigger] base[i]).y + dy <= i32::MAX
}

/// The rectangles to clip the window to: the base moved down by `dy`
/// (the animation offset, already in physical pixels). With nothing
/// remembered there is nothing to clip to: clipping before the panel is
/// rendered would do more harm than not clipping.
pub fn shifted(state: &RegionState, dy: i32) -> (r: Option<Vec<PanelRect>>)
    requires
        offset_fits(state.base@, dy as int),
    ensures
        state.base@.len() == 0 <==> r is None,
        r matches Some(v) ==> v@ == state.base@.map_values(|b: PanelRect| moved(b, dy as int)),
{
    if state.base.len() == 0 {
        return None;
    }
    let mut v: Vec<PanelRect> = Vec::new();
    let mut i: usize = 0;
    while i < state.base.len()
        invariant
            i <= state.base.len(),
            offset_fits(state.base@, dy as int),
            v@ == state.base@.take(i as int).map_values(|b: PanelRect| moved(b, dy as int)),
        decreases state.base.len() - i,
    {
        let b = state.base[i];
        assert(i32::MIN <= state.base@[i as int].y + dy <= i32::MAX);
        v.push(PanelRect { y: b.y + dy, ..b });
        assert(state.base@.take(i + 1).map_values(|b: PanelRect| moved(b, dy as int)) =~= state.base@.take(
            i as int,
        ).map_values(|b: PanelRect| moved(b, dy as int)).push(moved(b, dy as int)));
        i += 1;
    }
    assert(state.base@.take(i as int) =~= state.base@);
    Some(v)
}

/// The arguments of `CreateRoundRectRgn` for one module: left, top, right and
/// bottom edges (the right and bottom ones exclusive, hence the extra pixel),
/// then the width and height of the corner ellipse.
#[derive(Clone, Copy, Debug, PartialEq, Eq, Structural)]
pub struct RoundRectArgs {
    pub left: i32,
    pub top: i32,
    pub right: i32,
    pub bottom: i32,
    pub ellipse_w: i32,
    pub ellipse_h: i32,
}

pub open spec fn round_rect_of(r: PanelRect) -> RoundRectArgs {
    RoundRectArgs {
        left: r.x,
        top: r.y,
        right: (r.x + r.w + 1) as i32,
        bottom: (r.y + r.h + 1) as i32,
        ellipse_w: r.radius,
        ellipse_h: r.radius,
    }
}

/// The far edges of every rectangle (and the sums on the way) fit in `i32`.
pub open spec fn edges_fit(rects: Seq<PanelRect>) -> bool {
    forall|i: int|
        0 <= i < rects.len() ==> {
            &&& (#[trigger] rects[i]).x + rects[i].w + 1 <= i32::MAX
            &&& i32::MIN <= rects[i].x + rects[i].w
            &&& rects[i].y + rects[i].h + 1 <= i32::MAX
            &&& i32::MIN <= rects[i].y + rects[i].h
        }
}

/// The rounded rectangles whose union is the window region (and the blur
/// region): one per module, in order. The region is built from the first;
/// the others are merged into it.
pub fn region_pieces(rects: &[PanelRect]) -> (r: Vec<RoundRectArgs>)
    requires
        edges_fit(rects@),
    ensures
        r@ == rects@.map_values(|p: PanelRect| round_rect_of(p)),
{
    let mut v: Vec<RoundRectArgs> = Vec::new();
    let mut i: usize = 0;
    while i < rects.len()
        invariant
            i <= rects.len(),
            edges_fit(rects@),
            v@ == rects@.take(i as int).map_values(|p: PanelRect| round_rect_of(p)),
        decreases rects.len() - i,
    {
        let p = rects[i];
        assert(p == rects@[i as int]);
        v.push(
            RoundRectArgs {
                left: p.x,
                top: p.y,
                right: p.x + p.w + 1,
                bottom: p.y + p.h + 1,
                ellipse_w: p.radius,
                ellipse_h: p.radius,
            },
        );
        assert(rects@.take(i + 1).map_values(|p: PanelRect| round_rect_of(p)) =~= rects@.take(
            i as int,
        ).map_values(|p: PanelRect| round_rect_of(p)).push(round_rect_of(p)));
        i += 1;
    }
    assert(rects@.take(i as int) =~= rects@);
    v
}

// Window styles (WinUser.h).
pub const WS_CAPTION: u32 = 0x00C0_0000;
pub const WS_SYSMENU: u32 = 0x0008_0000;
pub const WS_MINIMIZEBOX: u32 = 0x0002_0000;
pub const WS_MAXIMIZEBOX: u32 = 0x0001_0000;
pub const WS_THICKFRAME: u32 = 0x0004_0000;
pub const WS_POPUP: u32 = 0x8000_0000;
pub const WS_CLIPSIBLINGS: u32 = 0x0400_0000;

// Extended window styles (WinUser.h).
pub const WS_EX_DLGMODALFRAME: u32 = 0x0000_0001;
pub const WS_EX_TOOLWINDOW: u32 = 0x0000_0080;
pub const WS_EX_WINDOWEDGE: u32 = 0x0000_0100;
pub const WS_EX_CLIENTEDGE: u32 = 0x0000_0200;
pub const WS_EX_STATICEDGE: u32 = 0x0002_0000;
pub const WS_EX_APPWINDOW: u32 = 0x0004_0000;
pub const WS_EX_LAYERED: u32 = 0x0008_0000;

/// The styles a frameless dock window keeps: the window's own styles without
/// any part of the system frame (caption, system menu, minimize and maximize
/// boxes, sizing border), as a clipped popup.
pub open spec fn frameless_style(style: u32) -> u32 {
    (style & !(WS_CAPTION | WS_SYSMENU | WS_MINIMIZEBOX | WS_MAXIMIZEBOX | WS_THICKFRAME)) | WS_POPUP
        | WS_CLIPSIBLINGS
}

/// The extended styles of a frameless dock window: no edges or modal frame,
/// not on the taskbar, a tool window, and layered (the fade of the collapse
/// animation needs the layered attribute, which every show/hide of the
/// windowing library wipes out).
pub open spec fn frameless_ex_style(ex: u32) -> u32 {
    (ex & !(WS_EX_WINDOWEDGE | WS_EX_CLIENTEDGE | WS_EX_DLGMODALFRAME | WS_EX_STATICEDGE
        | WS_EX_APPWINDOW)) | WS_EX_TOOLWINDOW | WS_EX_LAYERED
}

/// What to write back to the window, and whether anything drifted at all:
/// when nothing did, the window must not be disturbed (re-framing it forces
/// a recalculation and a repaint).
#[derive(Clone, Copy, Debug, PartialEq, Eq, Structural)]
pub struct FrameStyles {
    pub style: u32,
    pub ex_style: u32,
    pub changed: bool,
}

/// The frameless styles for a window whose current styles are `style` and `ex`.
pub fn frameless_styles(style: u32, ex: u32) -> (r: FrameStyles)
    ensures
        r.style == frameless_style(style),
        r.ex_style == frameless_ex_style(ex),
        r.changed == !(style == r.style && ex == r.ex_style),
{
    let wanted = (style & !(WS_CAPTION | WS_SYSMENU | WS_MINIMIZEBOX | WS_MAXIMIZEBOX | WS_THICKFRAME))
        | WS_POPUP | WS_CLIPSIBLINGS;
    let wanted_ex = (ex & !(WS_EX_WINDOWEDGE | WS_EX_CLIENTEDGE | WS_EX_DLGMODALFRAME | WS_EX_STATICEDGE
        | WS_EX_APPWINDOW)) | WS_EX_TOOLWINDOW | WS_EX_LAYERED;
    FrameStyles { style: wanted, ex_style: wanted_ex, changed: !(style == wanted && ex == wanted_ex) }
}

/// When setting the window's opacity failed: the extended styles to write
/// back before trying once more, if the layered attribute was what got lost;
/// `None` when it is still there (then the failure is final).
pub fn relayer_style(ex: u32) -> (r: Option<u32>)
    ensures
        ex & WS_EX_LAYERED == 0 ==> r == Some(ex | WS_EX_LAYERED),
        ex & WS_EX_LAYERED != 0 ==> r is None,
{
    if ex & WS_EX_LAYERED == 0 {
        Some(ex | WS_EX_LAYERED)
    } else {
        None
    }
}

/// Applying the frameless styles twice changes nothing the second time.
pub proof fn lemma_frameless_settles(style: u32, ex: u32)
    ensures
        frameless_style(frameless_style(style)) == frameless_style(style),
        frameless_ex_style(frameless_ex_style(ex)) == frameless_ex_style(ex),
{
    assert(frameless_style(frameless_style(style)) == frameless_style(style)) by (bit_vector);
    assert(frameless_ex_style(frameless_ex_style(ex)) == frameless_ex_style(ex)) by (bit_vector);
}

/// The frameless styles never carry any part of the system frame, and always
/// keep the window layered and off the taskbar.
pub proof fn lemma_frameless_has_no_frame(style: u32, ex: u32)
    ensures
        frameless_style(style) & (WS_CAPTION | WS_SYSMENU | WS_MINIMIZEBOX | WS_MAXIMIZEBOX | WS_THICKFRAME) == 0,
        frameless_style(style) & WS_POPUP != 0,
        frameless_ex_style(ex) & WS_EX_LAYERED != 0,
        frameless_ex_style(ex) & WS_EX_TOOLWINDOW != 0,
        frameless_ex_style(ex) & WS_EX_APPWINDOW == 0,
{
    assert(frameless_style(style) & (WS_CAPTION | WS_SYSMENU | WS_MINIMIZEBOX | WS_MAXIMIZEBOX | WS_THICKFRAME) == 0) by (bit_vector);
    assert(frameless_style(style) & WS_POPUP != 0) by (bit_vector);
    assert(frameless_ex_style(ex) & WS_EX_LAYERED != 0) by (bit_vector);
    assert(frameless_ex_style(ex) & WS_EX_TOOLWINDOW != 0) by (bit_vector);
    assert(frameless_ex_style(ex) & WS_EX_APPWINDOW == 0) by (bit_vector);
}

} // verus!
