//! Sidebar application state and the pure event-to-action reducer.
//!
//! `handle_event` is the single place where mouse clicks, wheel scrolling and
//! key presses turn into state changes and external `Action`s. It takes only
//! plain data, so it can be driven without a terminal or tmux.
use vstd::prelude::*;

use crate::layout::{
    build_lines, layout_spec, line_views, target_at, target_view, LineView, Target, TargetView,
    VisualLine,
};
use crate::model::Window;
use crate::text::str_is;

verus! {

/// An abstract input event, decoupled from the terminal backend.
#[derive(Debug, Clone, PartialEq, Eq)]
pub enum Event {
    /// Left-button press at a 0-based row within the sidebar pane.
    Click { row: u16 },
    /// Second left-button press on the same row within the double-click window.
    DoubleClick { row: u16 },
    /// Right or middle button press at a 0-based row.
    RightClick { row: u16 },
    ScrollUp,
    ScrollDown,
    Key(char),
}

/// A side effect for the runtime to carry out (tmux calls or exit).
#[derive(Debug, Clone, PartialEq, Eq)]
pub enum Action {
    SwitchTo(String),
    Rename(String),
    KillWindow(String),
    /// Kill the window, then remove its worktree.
    KillWindowAndWorktree(String),
    ClearReady(String),
    OpenPr(String),
    RefreshPr(String),
    Quit,
}

pub enum ActionView {
    SwitchTo(Seq<char>),
    Rename(Seq<char>),
    KillWindow(Seq<char>),
    KillWindowAndWorktree(Seq<char>),
    ClearReady(Seq<char>),
    OpenPr(Seq<char>),
    RefreshPr(Seq<char>),
    Quit,
}

impl View for Action {
    type V = ActionView;

    open spec fn view(&self) -> ActionView {
        match self {
            Action::SwitchTo(i) => ActionView::SwitchTo(i@),
            Action::Rename(i) => ActionView::Rename(i@),
            Action::KillWindow(i) => ActionView::KillWindow(i@),
            Action::KillWindowAndWorktree(i) => ActionView::KillWindowAndWorktree(i@),
            Action::ClearReady(i) => ActionView::ClearReady(i@),
            Action::OpenPr(i) => ActionView::OpenPr(i@),
            Action::RefreshPr(i) => ActionView::RefreshPr(i@),
            Action::Quit => ActionView::Quit,
        }
    }
}

pub open spec fn action_views(v: Seq<Action>) -> Seq<ActionView> {
    v.map_values(|a: Action| a@)
}

#[derive(Debug, Clone)]
pub struct State {
    pub windows: Vec<Window>,
    pub menu_window: String,
    pub width: usize,
    pub height: usize,
    pub scroll: usize,
    pub current_window: String,
}

/// The state as the contracts see it.
#[verifier::ext_equal]
pub struct StateView {
    pub windows: Seq<Window>,
    pub menu: Seq<char>,
    pub width: usize,
    pub height: usize,
    pub scroll: usize,
    pub current: Seq<char>,
}

impl View for State {
    type V = StateView;

    open spec fn view(&self) -> StateView {
        StateView {
            windows: self.windows@,
            menu: self.menu_window@,
            width: self.width,
            height: self.height,
            scroll: self.scroll,
            current: self.current_window@,
        }
    }
}

impl Default for State {
    fn default() -> (r: State)
        ensures
            r.windows@ == Seq::<Window>::empty(),
            r.menu_window@ == Seq::<char>::empty(),
            r.width == 0,
            r.height == 0,
            r.scroll == 0,
            r.current_window@ == Seq::<char>::empty(),
    {
        State {
            windows: Vec::new(),
            menu_window: String::new(),
            width: 0,
            height: 0,
            scroll: 0,
            current_window: String::new(),
        }
    }
}

// ---------------------------------------------------------------------------
// The reducer, as a function on state views
// ---------------------------------------------------------------------------

/// The visual lines of a state.
pub open spec fn state_lines(s: StateView) -> Seq<LineView> {
    layout_spec(s.windows, seq![], s.menu, s.width)
}

/// The largest scroll offset that still fills the viewport.
pub open spec fn max_scroll_of(s: StateView) -> int {
    let n = state_lines(s).len();
    if n > s.height {
        n - s.height
    } else {
        0
    }
}

/// The state with its scroll offset pulled back into range.
pub open spec fn clamped(s: StateView) -> StateView {
    if s.scroll > max_scroll_of(s) {
        StateView { scroll: max_scroll_of(s) as usize, ..s }
    } else {
        s
    }
}

pub open spec fn with_menu(s: StateView, menu: Seq<char>) -> StateView {
    StateView { menu: menu, ..s }
}

/// Right-clicking a window opens its menu, or closes it when already open.
pub open spec fn toggle_menu(s: StateView, index: Seq<char>) -> StateView {
    if s.menu == index {
        with_menu(s, seq![])
    } else {
        with_menu(s, index)
    }
}

/// The action a menu entry emits, if the entry is known.
pub open spec fn menu_action(index: Seq<char>, action: Seq<char>) -> Option<ActionView> {
    if action == "open PR"@ {
        Some(ActionView::OpenPr(index))
    } else if action == "refresh PR"@ {
        Some(ActionView::RefreshPr(index))
    } else if action == "rename"@ {
        Some(ActionView::Rename(index))
    } else if action == "kill"@ {
        Some(ActionView::KillWindow(index))
    } else if action == "kill + rm worktree"@ {
        Some(ActionView::KillWindowAndWorktree(index))
    } else if action == "clear ready"@ {
        Some(ActionView::ClearReady(index))
    } else {
        None
    }
}

/// Running a menu entry emits its action and closes the menu.
pub open spec fn run_action_spec(s: StateView, index: Seq<char>, action: Seq<char>) -> (
    StateView,
    Seq<ActionView>,
) {
    match menu_action(index, action) {
        Some(a) => (with_menu(s, seq![]), seq![a]),
        None => (s, seq![]),
    }
}

/// The target of the line at `idx`, if any.
pub open spec fn target_at_view(lines: Seq<LineView>, idx: int) -> Option<TargetView> {
    if 0 <= idx < lines.len() {
        lines[idx].target
    } else {
        None
    }
}

pub open spec fn click_spec(s: StateView, row: u16) -> (StateView, Seq<ActionView>) {
    match target_at_view(state_lines(s), s.scroll + row) {
        Some(TargetView::SwitchTo(i)) => (StateView { current: i, ..s }, seq![ActionView::SwitchTo(i)]),
        Some(TargetView::OpenPr(i)) => (StateView { current: i, ..s }, seq![ActionView::SwitchTo(i)]),
        Some(TargetView::RunAction(i, a)) => run_action_spec(s, i, a),
        None => (s, seq![]),
    }
}

pub open spec fn double_click_spec(s: StateView, row: u16) -> (StateView, Seq<ActionView>) {
    match target_at_view(state_lines(s), s.scroll + row) {
        Some(TargetView::OpenPr(i)) => (s, seq![ActionView::OpenPr(i)]),
        _ => (s, seq![]),
    }
}

pub open spec fn right_click_spec(s: StateView, row: u16) -> (StateView, Seq<ActionView>) {
    match target_at_view(state_lines(s), s.scroll + row) {
        Some(TargetView::SwitchTo(i)) => (toggle_menu(s, i), seq![]),
        Some(TargetView::OpenPr(i)) => (toggle_menu(s, i), seq![]),
        _ => (s, seq![]),
    }
}

/// The event's effect before the final scroll clamp.
pub open spec fn apply_event(s: StateView, e: Event) -> (StateView, Seq<ActionView>) {
    match e {
        Event::Key(c) => (s, if c == 'q' {
            seq![ActionView::Quit]
        } else {
            seq![]
        }),
        Event::ScrollUp => (StateView {
            scroll: if s.scroll >= 3 {
                (s.scroll - 3) as usize
            } else {
                0
            },
            ..s
        }, seq![]),
        Event::ScrollDown => (StateView {
            scroll: if s.scroll + 3 <= max_scroll_of(s) {
                (s.scroll + 3) as usize
            } else {
                max_scroll_of(s) as usize
            },
            ..s
        }, seq![]),
        Event::Click { row } => click_spec(s, row),
        Event::DoubleClick { row } => double_click_spec(s, row),
        Event::RightClick { row } => right_click_spec(s, row),
    }
}

/// One event: its effect, then the scroll pulled back into range.
pub open spec fn step(s: StateView, e: Event) -> (StateView, Seq<ActionView>) {
    (clamped(apply_event(s, e).0), apply_event(s, e).1)
}

/// The inputs on which the reducer's offset arithmetic stays in range.
pub open spec fn event_fits(s: StateView, e: Event) -> bool {
    match e {
        Event::Click { row } => s.scroll + row <= usize::MAX,
        Event::DoubleClick { row } => s.scroll + row <= usize::MAX,
        Event::RightClick { row } => s.scroll + row <= usize::MAX,
        Event::ScrollDown => s.scroll + 3 <= usize::MAX,
        _ => true,
    }
}

/// The state after the window list or viewport changed: a menu for a window
/// that is gone is closed, and the scroll offset pulled back into range.
pub open spec fn data_changed_spec(s: StateView) -> StateView {
    let live = exists|k: int| 0 <= k < s.windows.len() && s.windows[k].index@ == s.menu;
    if s.menu.len() > 0 && !live {
        clamped(with_menu(s, seq![]))
    } else {
        clamped(s)
    }
}

// ---------------------------------------------------------------------------
// The executable state machine
// ---------------------------------------------------------------------------

impl State {
    pub fn lines(&self) -> (r: Vec<VisualLine>)
        ensures
            line_views(r@) == state_lines(self@),
    {
        build_lines(&self.windows, self.menu_window.as_str(), self.width)
    }

    /// Largest valid scroll offset given current content and viewport height.
    pub fn max_scroll(&self) -> (r: usize)
        ensures
            r == max_scroll_of(self@),
    {
        let lines = self.lines();
        assert(lines@.len() == state_lines(self@).len());
        lines.len().saturating_sub(self.height)
    }

    fn clamp_scroll(&mut self)
        ensures
            final(self)@ == clamped(old(self)@),
    {
        let max = self.max_scroll();
        if self.scroll > max {
            self.scroll = max;
        }
    }

    /// Keeps the state consistent after the window list or viewport changes.
    pub fn on_data_changed(&mut self)
        ensures
            final(self)@ == data_changed_spec(old(self)@),
    {
        if !self.menu_window.as_str().is_empty() {
            let mut live = false;
            let mut k: usize = 0;
            while k < self.windows.len()
                invariant
                    k <= self.windows.len(),
                    self@ == old(self)@,
                    live == exists|q: int|
                        0 <= q < k && self.windows@[q].index@ == self.menu_window@,
                decreases self.windows.len() - k,
            {
                if self.windows[k].index == self.menu_window {
                    live = true;
                }
                k += 1;
            }
            if !live {
                self.menu_window = String::new();
            }
        }
        self.clamp_scroll();
    }

    fn open_action_menu(&mut self, index: &str)
        ensures
            final(self)@ == toggle_menu(old(self)@, index@),
    {
        if str_is(self.menu_window.as_str(), index) {
            self.menu_window = String::new();
            return;
        }
        self.menu_window = String::from_str(index);
    }

    fn run_window_action(&mut self, index: &str, action: &str, out: &mut Vec<Action>)
        ensures
            final(self)@ == run_action_spec(old(self)@, index@, action@).0,
            action_views(final(out)@) == action_views(old(out)@) + run_action_spec(
                old(self)@,
                index@,
                action@,
            ).1,
    {
        let i = String::from_str(index);
        let a = if str_is(action, "open PR") {
            Some(Action::OpenPr(i))
        } else if str_is(action, "refresh PR") {
            Some(Action::RefreshPr(i))
        } else if str_is(action, "rename") {
            Some(Action::Rename(i))
        } else if str_is(action, "kill") {
            Some(Action::KillWindow(i))
        } else if str_is(action, "kill + rm worktree") {
            Some(Action::KillWindowAndWorktree(i))
        } else if str_is(action, "clear ready") {
            Some(Action::ClearReady(i))
        } else {
            None
        };
        match a {
            Some(a) => {
                let ghost v = a@;
                out.push(a);
                assert(action_views(out@) =~= action_views(old(out)@) + seq![v]);
                self.menu_window = String::new();
            },
            None => {
                assert(action_views(out@) =~= action_views(old(out)@) + Seq::<ActionView>::empty());
            },
        }
    }
}

fn target_of(lines: &Vec<VisualLine>, idx: usize) -> (r: Option<Target>)
    ensures
        target_view(r) == target_at_view(line_views(lines@), idx as int),
{
    match target_at(lines.as_slice(), idx) {
        Some(t) => {
            let c = match t {
                Target::SwitchTo(i) => Target::SwitchTo(i.clone()),
                Target::OpenPr(i) => Target::OpenPr(i.clone()),
                Target::RunAction { index, action } => Target::RunAction {
                    index: index.clone(),
                    action: action.clone(),
                },
            };
            Some(c)
        },
        None => None,
    }
}

/// Applies an event to the state, returning the external actions to perform.
pub fn handle_event(state: &mut State, event: Event) -> (r: Vec<Action>)
    requires
        event_fits(old(state)@, event),
    ensures
        final(state)@ == step(old(state)@, event).0,
        action_views(r@) == step(old(state)@, event).1,
{
    let mut out: Vec<Action> = Vec::new();
    match event {
        Event::Key(c) => {
            if c == 'q' {
                out.push(Action::Quit);
            }
        },
        Event::ScrollUp => {
            state.scroll = state.scroll.saturating_sub(3);
        },
        Event::ScrollDown => {
            let max = state.max_scroll();
            let next = state.scroll + 3;
            state.scroll = if next < max {
                next
            } else {
                max
            };
        },
        Event::Click { row } => {
            let idx = state.scroll + row as usize;
            let lines = state.lines();
            match target_of(&lines, idx) {
                Some(Target::SwitchTo(index)) => {
                    state.current_window = index.clone();
                    out.push(Action::SwitchTo(index));
                },
                Some(Target::OpenPr(index)) => {
                    state.current_window = index.clone();
                    out.push(Action::SwitchTo(index));
                },
                Some(Target::RunAction { index, action }) => {
                    state.run_window_action(index.as_str(), action.as_str(), &mut out);
                },
                None => {},
            }
        },
        Event::DoubleClick { row } => {
            let idx = state.scroll + row as usize;
            let lines = state.lines();
            match target_of(&lines, idx) {
                Some(Target::OpenPr(index)) => {
                    out.push(Action::OpenPr(index));
                },
                _ => {},
            }
        },
        Event::RightClick { row } => {
            let idx = state.scroll + row as usize;
            let lines = state.lines();
            match target_of(&lines, idx) {
                Some(Target::SwitchTo(index)) => {
                    state.open_action_menu(index.as_str());
                },
                Some(Target::OpenPr(index)) => {
                    state.open_action_menu(index.as_str());
                },
                _ => {},
            }
        },
    }
    proof {
        assert(action_views(out@) =~= apply_event(old(state)@, event).1);
        assert(state@ =~= apply_event(old(state)@, event).0);
    }
    state.clamp_scroll();
    out
}

/// The lines of the viewport: `height` lines from `scroll`, cut at the end.
pub fn visible<'a>(lines: &'a [VisualLine], scroll: usize, height: usize) -> (r: &'a [VisualLine])
    requires
        scroll + height <= usize::MAX,
    ensures
        r@ == lines@.subrange(
            if scroll < lines@.len() {
                scroll as int
            } else {
                lines@.len() as int
            },
            if scroll + height < lines@.len() {
                scroll + height
            } else {
                lines@.len() as int
            },
        ),
{
    let start = if scroll < lines.len() {
        scroll
    } else {
        lines.len()
    };
    let end = if scroll + height < lines.len() {
        scroll + height
    } else {
        lines.len()
    };
    &lines[start..end]
}

// ---------------------------------------------------------------------------
// Laws of the reducer
// ---------------------------------------------------------------------------

/// After any event the scroll offset lies within the content: it never
/// exceeds the largest offset that still fills the viewport.
pub proof fn lemma_scroll_stays_in_view(s: StateView, e: Event)
    ensures
        step(s, e).0.scroll <= max_scroll_of(step(s, e).0),
{
    let t = apply_event(s, e).0;
    assert(state_lines(clamped(t)) == state_lines(t));
}

/// Events never change the window list or the viewport size.
pub proof fn lemma_events_keep_windows(s: StateView, e: Event)
    ensures
        step(s, e).0.windows == s.windows,
        step(s, e).0.width == s.width,
        step(s, e).0.height == s.height,
{
}

/// Each wheel notch moves an in-range viewport by three lines, stopping at
/// the top and at the largest offset; scrolling emits no action.
pub proof fn lemma_wheel_moves_three_lines(s: StateView)
    requires
        s.scroll <= max_scroll_of(s),
        s.scroll + 3 <= usize::MAX,
    ensures
        step(s, Event::ScrollDown).0.scroll == (if s.scroll + 3 <= max_scroll_of(s) {
            s.scroll + 3
        } else {
            max_scroll_of(s)
        }),
        step(s, Event::ScrollUp).0.scroll == (if s.scroll >= 3 {
            s.scroll - 3
        } else {
            0
        }),
        step(s, Event::ScrollDown).0.menu == s.menu,
        step(s, Event::ScrollUp).0.menu == s.menu,
        step(s, Event::ScrollDown).1.len() == 0,
        step(s, Event::ScrollUp).1.len() == 0,
{
    let d = apply_event(s, Event::ScrollDown).0;
    let u = apply_event(s, Event::ScrollUp).0;
    assert(state_lines(d) == state_lines(s));
    assert(state_lines(u) == state_lines(s));
}

/// Only the `q` key emits an action, and it is `Quit`; keys change no state
/// beyond the scroll clamp.
pub proof fn lemma_only_q_quits(s: StateView, c: char)
    ensures
        step(s, Event::Key(c)).0 == clamped(s),
        c == 'q' ==> step(s, Event::Key(c)).1 == seq![ActionView::Quit],
        c != 'q' ==> step(s, Event::Key(c)).1.len() == 0,
{
}

/// A click on a menu entry emits that entry's action and closes the menu.
pub proof fn lemma_menu_entry_closes_menu(s: StateView, row: u16, index: Seq<char>, action: Seq<char>)
    requires
        target_at_view(state_lines(s), s.scroll + row) == Some(TargetView::RunAction(index, action)),
        menu_action(index, action) is Some,
    ensures
        step(s, Event::Click { row }).0.menu.len() == 0,
        step(s, Event::Click { row }).1 == seq![menu_action(index, action).unwrap()],
{
}

/// A right-click on a line of window `i` opens that window's menu, or closes
/// it when it was already open; it emits no action.
pub proof fn lemma_right_click_toggles_menu(s: StateView, row: u16, i: Seq<char>)
    requires
        target_at_view(state_lines(s), s.scroll + row) == Some(TargetView::SwitchTo(i))
            || target_at_view(state_lines(s), s.scroll + row) == Some(TargetView::OpenPr(i)),
    ensures
        step(s, Event::RightClick { row }).0.menu == (if s.menu == i {
            Seq::<char>::empty()
        } else {
            i
        }),
        step(s, Event::RightClick { row }).1.len() == 0,
{
}

/// After the data changes, the menu is closed or belongs to a live window,
/// and the scroll offset lies within the content.
pub proof fn lemma_data_changed_is_consistent(s: StateView)
    ensures
        data_changed_spec(s).menu.len() == 0 || exists|k: int|
            0 <= k < data_changed_spec(s).windows.len()
                && data_changed_spec(s).windows[k].index@ == data_changed_spec(s).menu,
        data_changed_spec(s).scroll <= max_scroll_of(data_changed_spec(s)),
        data_changed_spec(s).windows == s.windows,
{
    let m = with_menu(s, seq![]);
    assert(state_lines(clamped(m)) == state_lines(m));
    assert(state_lines(clamped(s)) == state_lines(s));
}

/// A click on a window's line (or its PR line) switches to that window and
/// emits `SwitchTo`, keeping the menu; a click on a menu entry emits the
/// entry's action and closes the menu; a click on no target changes nothing
/// and emits nothing.
pub proof fn lemma_click_switches_window(s: StateView, row: u16)
    requires
        s.scroll <= max_scroll_of(s),
    ensures
        ({
            let (s2, a) = step(s, Event::Click { row });
            match target_at_view(state_lines(s), s.scroll + row) {
                Some(TargetView::SwitchTo(i)) => a == seq![ActionView::SwitchTo(i)] && s2 == StateView {
                    current: i,
                    ..s
                },
                Some(TargetView::OpenPr(i)) => a == seq![ActionView::SwitchTo(i)] && s2 == StateView {
                    current: i,
                    ..s
                },
                Some(TargetView::RunAction(i, act)) => match menu_action(i, act) {
                    Some(x) => a == seq![x] && s2.menu.len() == 0 && s2.current == s.current,
                    None => a.len() == 0 && s2 == s,
                },
                None => a.len() == 0 && s2 == s,
            }
        }),
{
    let t = target_at_view(state_lines(s), s.scroll + row);
    if let Some(TargetView::SwitchTo(i)) = t {
        let s1 = StateView { current: i, ..s };
        assert(state_lines(s1) == state_lines(s));
    }
    if let Some(TargetView::OpenPr(i)) = t {
        let s1 = StateView { current: i, ..s };
        assert(state_lines(s1) == state_lines(s));
    }
}

/// A double-click on a PR line emits `OpenPr` for its window; elsewhere it
/// emits nothing. It never changes the state.
pub proof fn lemma_double_click_opens_pr(s: StateView, row: u16)
    requires
        s.scroll <= max_scroll_of(s),
    ensures
        step(s, Event::DoubleClick { row }).0 == s,
        step(s, Event::DoubleClick { row }).1 == match target_at_view(state_lines(s), s.scroll + row) {
            Some(TargetView::OpenPr(i)) => seq![ActionView::OpenPr(i)],
            _ => Seq::<ActionView>::empty(),
        },
{
}

} // verus!
