//! Hiding and showing the Windows desktop icons, a system-wide setting.
//!
//! The shell's "show desktop icons" command toggles, it does not set; so the
//! current state is read first and the command is sent only when it differs.
//! Newer shells may ignore the command, in which case the icon window's
//! visibility is set directly. At most two rounds are tried, to let Explorer
//! finish redrawing, and success is only reported once a read confirms it.
//!
//! The window calls themselves are made by the caller; this module decides.
use vstd::prelude::*;

use crate::text::owned;

verus! {

/// What could be read of the desktop's icon windows: the visibility of the
/// `SHELLDLL_DefView` window, and that of its `SysListView32` child when
/// there is one.
#[derive(Clone, Copy, Debug, PartialEq, Eq, Structural)]
pub struct DesktopViews {
    pub defview_visible: bool,
    pub listview_visible: Option<bool>,
}

/// Whether the desktop icons can be seen: the list view's visibility (which
/// takes every ancestor into account), or the view's own where there is no
/// list view; `None` when the icon windows were not found.
pub fn icons_visible(views: Option<DesktopViews>) -> (r: Option<bool>)
    ensures
        views is None ==> r is None,
        views matches Some(v) ==> r == Some(
            match v.listview_visible {
                Some(l) => l,
                None => v.defview_visible,
            },
        ),
{
    match views {
        None => None,
        Some(v) => match v.listview_visible {
            Some(l) => Some(l),
            None => Some(v.defview_visible),
        },
    }
}

/// Where a switch of the icons stands.
#[derive(Clone, Copy, Debug, PartialEq, Eq, Structural)]
pub enum Stage {
    /// Waiting for the state read at the start of a round.
    Check,
    /// Waiting to hear whether the toggle command could be sent.
    Toggle,
    /// Waiting for the state read after the toggle command.
    Confirm,
    /// Waiting for the icon window's visibility to be set directly.
    Force,
    /// Waiting for the last state read, after both rounds.
    Settle,
    /// Finished.
    Done,
}

/// A switch of the desktop icons to hidden or shown, in progress.
#[derive(Clone, Copy, Debug, PartialEq, Eq, Structural)]
pub struct IconSwitch {
    /// Whether the icons are to be hidden.
    pub hidden: bool,
    /// The round under way: 0 or 1.
    pub round: u8,
    pub stage: Stage,
}

/// What the caller reports after doing what it was asked.
#[derive(Clone, Copy, Debug, PartialEq, Eq, Structural)]
pub enum IconEvent {
    /// The icons' visibility as read now (`None`: the icon windows were not found).
    Visible(Option<bool>),
    /// Whether the icon windows were found and the toggle command sent (and
    /// Explorer given a moment to redraw).
    Toggled(bool),
    /// The icon window's visibility was set directly.
    Forced,
}

/// What the caller is to do next.
#[derive(Debug)]
pub enum IconAction {
    /// Read the icons' visibility.
    Probe,
    /// Find the icon windows and send them the shell's toggle command.
    Toggle,
    /// Hide (`true`) or show the icon window directly.
    Force(bool),
    /// Stop, with this result.
    Finish(Result<(), String>),
}

/// An action as a value of the model.
pub enum ActionView {
    Probe,
    Toggle,
    Force(bool),
    Finish(Result<(), Seq<char>>),
}

impl View for IconAction {
    type V = ActionView;

    open spec fn view(&self) -> ActionView {
        match self {
            IconAction::Probe => ActionView::Probe,
            IconAction::Toggle => ActionView::Toggle,
            IconAction::Force(h) => ActionView::Force(*h),
            IconAction::Finish(Ok(())) => ActionView::Finish(Ok(())),
            IconAction::Finish(Err(m)) => ActionView::Finish(Err(m@)),
        }
    }
}

/// "找不到桌面图标窗口"
pub open spec fn msg_no_icon_window() -> Seq<char> {
    seq!['找', '不', '到', '桌', '面', '图', '标', '窗', '口']
}

/// "系统未接受桌面图标切换请求"
pub open spec fn msg_not_accepted() -> Seq<char> {
    seq!['系', '统', '未', '接', '受', '桌', '面', '图', '标', '切', '换', '请', '求']
}

impl IconSwitch {
    /// A switch to hidden (`hidden`) or shown; the first thing to do is to
    /// read the current state (`IconAction::Probe`).
    pub fn new(hidden: bool) -> (s: Self)
        ensures
            s == (IconSwitch { hidden, round: 0, stage: Stage::Check }),
    {
        IconSwitch { hidden, round: 0, stage: Stage::Check }
    }

    /// The switch is sound: two rounds at most.
    pub open spec fn wf(self) -> bool {
        self.round < 2
    }

    /// The kind of report the switch waits for.
    pub open spec fn expects_spec(self, e: IconEvent) -> bool {
        match self.stage {
            Stage::Check | Stage::Confirm | Stage::Settle => e is Visible,
            Stage::Toggle => e is Toggled,
            Stage::Force => e is Forced,
            Stage::Done => false,
        }
    }

    /// Whether `e` is the kind of report the switch waits for.
    pub fn expects(&self, e: &IconEvent) -> (r: bool)
        ensures
            r == self.expects_spec(*e),
    {
        match self.stage {
            Stage::Check | Stage::Confirm | Stage::Settle => matches!(*e, IconEvent::Visible(_)),
            Stage::Toggle => matches!(*e, IconEvent::Toggled(_)),
            Stage::Force => matches!(*e, IconEvent::Forced),
            Stage::Done => false,
        }
    }

    /// Steps left at most before the switch is done.
    pub open spec fn steps_left(self) -> nat {
        let per_round: nat = 4;
        let in_round: nat = match self.stage {
            Stage::Check => 4,
            Stage::Toggle => 3,
            Stage::Confirm => 2,
            Stage::Force => 1,
            Stage::Settle => 1,
            Stage::Done => 0,
        };
        match self.stage {
            Stage::Settle | Stage::Done => in_round,
            _ => in_round + (1 - self.round) as nat * per_round + 1,
        }
    }
}

/// The icons are in the wanted state: visible exactly when not to be hidden.
pub open spec fn confirmed(s: IconSwitch, v: Option<bool>) -> bool {
    v == Some(!s.hidden)
}

/// The next state and action of a switch, given what was reported.
pub open spec fn next_spec(s: IconSwitch, e: IconEvent) -> (IconSwitch, ActionView) {
    let done = IconSwitch { stage: Stage::Done, ..s };
    match (s.stage, e) {
        (Stage::Check, IconEvent::Visible(None)) => (done, ActionView::Finish(Err(msg_no_icon_window()))),
        (Stage::Check, IconEvent::Visible(v)) => if confirmed(s, v) {
            (done, ActionView::Finish(Ok(())))
        } else {
            (IconSwitch { stage: Stage::Toggle, ..s }, ActionView::Toggle)
        },
        (Stage::Toggle, IconEvent::Toggled(false)) => (done, ActionView::Finish(Err(msg_no_icon_window()))),
        (Stage::Toggle, IconEvent::Toggled(true)) => (IconSwitch { stage: Stage::Confirm, ..s }, ActionView::Probe),
        (Stage::Confirm, IconEvent::Visible(v)) => if confirmed(s, v) {
            (done, ActionView::Finish(Ok(())))
        } else {
            (IconSwitch { stage: Stage::Force, ..s }, ActionView::Force(s.hidden))
        },
        (Stage::Force, IconEvent::Forced) => if s.round == 0 {
            (IconSwitch { round: 1, stage: Stage::Check, ..s }, ActionView::Probe)
        } else {
            (IconSwitch { stage: Stage::Settle, ..s }, ActionView::Probe)
        },
        (Stage::Settle, IconEvent::Visible(v)) => if confirmed(s, v) {
            (done, ActionView::Finish(Ok(())))
        } else {
            (done, ActionView::Finish(Err(msg_not_accepted())))
        },
        _ => (done, ActionView::Finish(Err(msg_no_icon_window()))),
    }
}

/// Advances the switch with what the caller reported, and says what to do
/// next. A read that shows the wanted state ends it at once: the toggle
/// command is never sent when the icons are already as wanted.
pub fn apply_hidden(switch: &mut IconSwitch, e: IconEvent) -> (a: IconAction)
    requires
        old(switch).wf(),
        old(switch).expects_spec(e),
    ensures
        (*final(switch), a@) == next_spec(*old(switch), e),
        final(switch).wf(),
        final(switch).steps_left() < old(switch).steps_left(),
        final(switch).stage == Stage::Done <==> a is Finish,
        a matches IconAction::Finish(Ok(())) ==> e == IconEvent::Visible(Some(!old(switch).hidden)),
{
    let s = *switch;
    let want = !s.hidden;
    let done = IconSwitch { stage: Stage::Done, ..s };
    match (s.stage, e) {
        (Stage::Check, IconEvent::Visible(v)) => {
            match v {
                None => {
                    *switch = done;
                    IconAction::Finish(Err(no_icon_window()))
                },
                Some(now) => {
                    if now == want {
                        *switch = done;
                        IconAction::Finish(Ok(()))
                    } else {
                        *switch = IconSwitch { stage: Stage::Toggle, ..s };
                        IconAction::Toggle
                    }
                },
            }
        },
        (Stage::Toggle, IconEvent::Toggled(found)) => {
            if found {
                *switch = IconSwitch { stage: Stage::Confirm, ..s };
                IconAction::Probe
            } else {
                *switch = done;
                IconAction::Finish(Err(no_icon_window()))
            }
        },
        (Stage::Confirm, IconEvent::Visible(v)) => {
            if v == Some(want) {
                *switch = done;
                IconAction::Finish(Ok(()))
            } else {
                *switch = IconSwitch { stage: Stage::Force, ..s };
                IconAction::Force(s.hidden)
            }
        },
        (Stage::Force, IconEvent::Forced) => {
            if s.round == 0 {
                *switch = IconSwitch { round: 1, stage: Stage::Check, ..s };
            } else {
                *switch = IconSwitch { stage: Stage::Settle, ..s };
            }
            IconAction::Probe
        },
        (Stage::Settle, IconEvent::Visible(v)) => {
            *switch = done;
            if v == Some(want) {
                IconAction::Finish(Ok(()))
            } else {
                IconAction::Finish(Err(not_accepted()))
            }
        },
        _ => {
            *switch = done;
            IconAction::Finish(Err(no_icon_window()))
        },
    }
}

/// The actions a switch asks for when the caller reports `es` in turn,
/// stopping once it is done, with the state it ends in.
pub open spec fn run(s: IconSwitch, es: Seq<IconEvent>) -> (IconSwitch, Seq<ActionView>)
    decreases es.len(),
{
    if es.len() == 0 || s.stage == Stage::Done {
        (s, seq![])
    } else {
        let (s1, a) = next_spec(s, es[0]);
        let (s2, rest) = run(s1, es.skip(1));
        (s2, seq![a] + rest)
    }
}

/// How many of `acts` are the shell's toggle command.
pub open spec fn toggles(acts: Seq<ActionView>) -> nat
    decreases acts.len(),
{
    if acts.len() == 0 {
        0
    } else {
        (if acts[0] is Toggle { 1nat } else { 0nat }) + toggles(acts.skip(1))
    }
}

/// How many of `acts` set the icon window's visibility directly.
pub open spec fn forced(acts: Seq<ActionView>) -> nat
    decreases acts.len(),
{
    if acts.len() == 0 {
        0
    } else {
        (if acts[0] is Force { 1nat } else { 0nat }) + forced(acts.skip(1))
    }
}

/// Toggle commands a switch may still send.
spec fn toggles_left(s: IconSwitch) -> nat {
    match s.stage {
        Stage::Check => (2 - s.round) as nat,
        Stage::Toggle | Stage::Confirm | Stage::Force => (1 - s.round) as nat,
        _ => 0,
    }
}

/// Direct visibility changes a switch may still make.
spec fn forces_left(s: IconSwitch) -> nat {
    match s.stage {
        Stage::Check | Stage::Toggle | Stage::Confirm => (2 - s.round) as nat,
        Stage::Force => (1 - s.round) as nat,
        _ => 0,
    }
}

proof fn lemma_run_bounds(s: IconSwitch, es: Seq<IconEvent>)
    requires
        s.wf(),
    ensures
        toggles(run(s, es).1) <= toggles_left(s),
        forced(run(s, es).1) <= forces_left(s),
        run(s, es).1.len() <= s.steps_left(),
    decreases es.len(),
{
    if es.len() > 0 && s.stage != Stage::Done {
        let (s1, a) = next_spec(s, es[0]);
        lemma_run_bounds(s1, es.skip(1));
        let acts = run(s, es).1;
        assert(acts.skip(1) =~= run(s1, es.skip(1)).1);
    }
}

/// Whatever the caller reports, a switch sends the shell's toggle command at
/// most twice and sets the icon window's visibility directly at most twice
/// (two rounds), and asks for at most nine actions in all.
pub proof fn lemma_switch_is_bounded(hidden: bool, es: Seq<IconEvent>)
    ensures
        ({
            let acts = run(IconSwitch { hidden, round: 0, stage: Stage::Check }, es).1;
            &&& toggles(acts) <= 2
            &&& forced(acts) <= 2
            &&& acts.len() <= 9
        }),
{
    lemma_run_bounds(IconSwitch { hidden, round: 0, stage: Stage::Check }, es);
}

/// When the first read shows the icons already as wanted, a switch finishes
/// with success at once and sends nothing: so once a switch has succeeded
/// (its last read showed the wanted state, see `apply_hidden`), another switch
/// to the same state sends nothing while the icons stay as they are.
pub proof fn lemma_switch_already_set(hidden: bool, es: Seq<IconEvent>)
    requires
        es.len() > 0,
        es[0] == IconEvent::Visible(Some(!hidden)),
    ensures
        run(IconSwitch { hidden, round: 0, stage: Stage::Check }, es).1 == seq![
            ActionView::Finish(Ok(())),
        ],
{
    let s0 = IconSwitch { hidden, round: 0, stage: Stage::Check };
    let s1 = next_spec(s0, es[0]).0;
    assert(s1.stage == Stage::Done);
    assert(run(s1, es.skip(1)).1 =~= Seq::<ActionView>::empty());
    assert(run(s0, es).1 =~= seq![ActionView::Finish(Ok(()))]);
}

/// A switch whose first read finds no icon window fails at once and sends
/// nothing.
pub proof fn lemma_switch_without_window(hidden: bool, es: Seq<IconEvent>)
    requires
        es.len() > 0,
        es[0] == IconEvent::Visible(None),
    ensures
        run(IconSwitch { hidden, round: 0, stage: Stage::Check }, es).1 == seq![
            ActionView::Finish(Err(msg_no_icon_window())),
        ],
{
    let s0 = IconSwitch { hidden, round: 0, stage: Stage::Check };
    let s1 = next_spec(s0, es[0]).0;
    assert(s1.stage == Stage::Done);
    assert(run(s1, es.skip(1)).1 =~= Seq::<ActionView>::empty());
    assert(run(s0, es).1 =~= seq![ActionView::Finish(Err(msg_no_icon_window()))]);
}

fn no_icon_window() -> (m: String)
    ensures
        m@ == msg_no_icon_window(),
{
    let m = owned("找不到桌面图标窗口");
    proof {
        reveal_strlit("找不到桌面图标窗口");
        assert(m@ =~= msg_no_icon_window());
    }
    m
}

fn not_accepted() -> (m: String)
    ensures
        m@ == msg_not_accepted(),
{
    let m = owned("系统未接受桌面图标切换请求");
    proof {
        reveal_strlit("系统未接受桌面图标切换请求");
        assert(m@ =~= msg_not_accepted());
    }
    m
}

} // verus!
