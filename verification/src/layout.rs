//! Turns the window list and menu state into a flat list of visual lines.
//!
//! Each line carries an optional click `Target`, so mapping a click at screen
//! row `y` to an action is just `lines[scroll + y].target`.
use vstd::prelude::*;

use crate::model::{
    action_menu_labels, clipped_spec, clipped_text, grouped_spec, grouped_windows_with_sections,
    groups_match, icon_spec, is_assigned, menu_labels, pr_label, window_icon, PrState, Window,
    DETAIL_INDENT,
    HERDR_GROUP,
};
use crate::grouping::{ids_distinct, lemma_window_in_its_group, listed};
use crate::sections::{has_section, SectionLayout, SectionView};
use crate::text::{
    chars_of, decimal, push_char, push_decimal, push_str, str_is, string_of_range,
    trim_char_bounds, trim_start_char,
};

verus! {

/// What a click on a line does.
#[derive(Debug, Clone, PartialEq, Eq)]
pub enum Target {
    SwitchTo(String),
    OpenPr(String),
    RunAction { index: String, action: String },
}

/// A target with its strings taken by their character sequences.
pub enum TargetView {
    SwitchTo(Seq<char>),
    OpenPr(Seq<char>),
    RunAction(Seq<char>, Seq<char>),
}

impl View for Target {
    type V = TargetView;

    open spec fn view(&self) -> TargetView {
        match self {
            Target::SwitchTo(i) => TargetView::SwitchTo(i@),
            Target::OpenPr(i) => TargetView::OpenPr(i@),
            Target::RunAction { index, action } => TargetView::RunAction(index@, action@),
        }
    }
}

#[derive(Debug, Clone, Copy, PartialEq, Eq, Structural)]
pub enum LineStyle {
    Blank,
    Group,
    WindowName { active: bool, bell: bool },
    Detail { active: bool, bell: bool },
    Pr { active: bool, bell: bool, state: PrState },
    Action,
}

#[derive(Debug, Clone, PartialEq, Eq)]
pub struct VisualLine {
    pub text: String,
    pub style: LineStyle,
    pub target: Option<Target>,
}

/// A visual line as the contracts see it.
pub struct LineView {
    pub text: Seq<char>,
    pub style: LineStyle,
    pub target: Option<TargetView>,
}

pub open spec fn target_view(t: Option<Target>) -> Option<TargetView> {
    match t {
        Some(t) => Some(t@),
        None => None,
    }
}

impl View for VisualLine {
    type V = LineView;

    open spec fn view(&self) -> LineView {
        LineView { text: self.text@, style: self.style, target: target_view(self.target) }
    }
}

pub open spec fn line_views(v: Seq<VisualLine>) -> Seq<LineView> {
    v.map_values(|l: VisualLine| l@)
}

// ---------------------------------------------------------------------------
// The layout, as a function of the windows, sections, menu and width
// ---------------------------------------------------------------------------

pub open spec fn blank_line() -> LineView {
    LineView { text: seq![], style: LineStyle::Blank, target: None }
}

/// The window-name line: ready icon, then the name.
pub open spec fn name_line(w: Window) -> LineView {
    LineView {
        text: icon_spec(w) + w.name@,
        style: LineStyle::WindowName { active: w.active, bell: w.bell },
        target: Some(TargetView::SwitchTo(w.index@)),
    }
}

/// The clipped terminal title, leading `✳` marks dropped.
pub open spec fn title_text(w: Window, width: usize) -> Seq<char> {
    clipped_spec(trim_start_char(w.title@, '✳'), width)
}

/// The title detail line, present when the clipped title is not empty.
pub open spec fn title_lines(w: Window, width: usize) -> Seq<LineView> {
    let t = title_text(w, width);
    if t.len() > 0 {
        seq![
            LineView {
                text: DETAIL_INDENT@ + t,
                style: LineStyle::Detail { active: w.active, bell: w.bell },
                target: Some(TargetView::SwitchTo(w.index@)),
            },
        ]
    } else {
        seq![]
    }
}

/// The PR detail line, present when a PR is cached; it opens the PR when a
/// URL is known and switches to the window otherwise.
pub open spec fn pr_lines(w: Window) -> Seq<LineView> {
    match w.pr {
        Some(pr) => seq![
            LineView {
                text: DETAIL_INDENT@ + "● PR #"@ + decimal(pr.number as nat) + seq![' '] + pr_label(
                    pr.state,
                ),
                style: LineStyle::Pr { active: w.active, bell: w.bell, state: pr.state },
                target: Some(
                    if pr.url@.len() == 0 {
                        TargetView::SwitchTo(w.index@)
                    } else {
                        TargetView::OpenPr(w.index@)
                    },
                ),
            },
        ],
        None => seq![],
    }
}

pub open spec fn has_pr_url(w: Window) -> bool {
    match w.pr {
        Some(pr) => pr.url@.len() > 0,
        None => false,
    }
}

pub open spec fn menu_line(index: Seq<char>, action: Seq<char>) -> LineView {
    LineView {
        text: "   "@ + action,
        style: LineStyle::Action,
        target: Some(TargetView::RunAction(index, action)),
    }
}

/// The action menu, shown under the window whose index is `menu`.
pub open spec fn menu_lines(w: Window, menu: Seq<char>) -> Seq<LineView> {
    if menu == w.index@ {
        menu_labels(has_pr_url(w)).map_values(|a: Seq<char>| menu_line(w.index@, a))
    } else {
        seq![]
    }
}

/// The lines of one window: name, title, PR, a margin, then its menu.
pub open spec fn window_lines(w: Window, menu: Seq<char>, width: usize) -> Seq<LineView> {
    seq![name_line(w)] + title_lines(w, width) + pr_lines(w) + seq![blank_line()] + menu_lines(
        w,
        menu,
    )
}

/// The lines of the windows at the indexes `idx`, in order.
pub open spec fn window_block(ws: Seq<Window>, idx: Seq<int>, menu: Seq<char>, width: usize) -> Seq<
    LineView,
>
    decreases idx.len(),
{
    if idx.len() == 0 {
        seq![]
    } else {
        window_block(ws, idx.drop_last(), menu, width) + window_lines(ws[idx.last()], menu, width)
    }
}

/// A group heading: herdr gets its sheep, custom sections their bare name,
/// folder groups a folder icon.
pub open spec fn group_heading(name: Seq<char>, l: Seq<SectionView>) -> Seq<char> {
    if name == HERDR_GROUP@ {
        "🐑 "@ + name
    } else if has_section(l, name) {
        name
    } else {
        "📁 "@ + name
    }
}

pub open spec fn heading_line(name: Seq<char>, l: Seq<SectionView>) -> LineView {
    LineView { text: group_heading(name, l), style: LineStyle::Group, target: None }
}

/// The groups' lines, a blank line between consecutive groups.
pub open spec fn groups_block(
    ws: Seq<Window>,
    gs: Seq<(Seq<char>, Seq<int>)>,
    l: Seq<SectionView>,
    menu: Seq<char>,
    width: usize,
) -> Seq<LineView>
    decreases gs.len(),
{
    if gs.len() == 0 {
        seq![]
    } else {
        groups_block(ws, gs.drop_last(), l, menu, width) + (if gs.len() > 1 {
            seq![blank_line()]
        } else {
            seq![]
        }) + seq![heading_line(gs.last().0, l)] + window_block(ws, gs.last().1, menu, width)
    }
}

/// The whole sidebar: a blank top line, then the grouped windows.
pub open spec fn layout_spec(ws: Seq<Window>, l: Seq<SectionView>, menu: Seq<char>, width: usize) -> Seq<
    LineView,
> {
    seq![blank_line()] + groups_block(ws, grouped_spec(ws, l), l, menu, width)
}

// ---------------------------------------------------------------------------
// Where a window's lines stand
// ---------------------------------------------------------------------------

/// `block` stands in `s` from position `i`.
pub open spec fn block_at(s: Seq<LineView>, block: Seq<LineView>, i: int) -> bool {
    0 <= i && i + block.len() <= s.len() && s.subrange(i, i + block.len()) == block
}

proof fn lemma_block_before(a: Seq<LineView>, b: Seq<LineView>, block: Seq<LineView>, i: int)
    requires
        block_at(a, block, i),
    ensures
        block_at(a + b, block, i),
{
    assert((a + b).subrange(i, i + block.len()) =~= a.subrange(i, i + block.len()));
}

proof fn lemma_block_after(a: Seq<LineView>, b: Seq<LineView>, block: Seq<LineView>, i: int)
    requires
        block_at(b, block, i),
    ensures
        block_at(a + b, block, a.len() + i),
{
    assert((a + b).subrange(a.len() + i, a.len() + i + block.len()) =~= b.subrange(i, i + block.len()));
}

/// A window listed in `idx` has its lines in the block of those windows.
proof fn lemma_window_in_block(ws: Seq<Window>, idx: Seq<int>, menu: Seq<char>, width: usize, x: int)
    requires
        idx.contains(x),
    ensures
        exists|i: int| block_at(window_block(ws, idx, menu, width), window_lines(ws[x], menu, width), i),
    decreases idx.len(),
{
    let lines = window_lines(ws[x], menu, width);
    let front = window_block(ws, idx.drop_last(), menu, width);
    let whole = window_block(ws, idx, menu, width);
    assert(idx.len() > 0);
    assert(whole == front + window_lines(ws[idx.last()], menu, width));
    if idx.last() == x {
        assert(lines.subrange(0, lines.len() as int) =~= lines);
        assert(block_at(lines, lines, 0));
        lemma_block_after(front, lines, lines, 0);
        assert(block_at(whole, lines, front.len() as int));
    } else {
        let j = choose|j: int| 0 <= j < idx.len() && idx[j] == x;
        assert(j != idx.len() - 1);
        assert(idx.drop_last()[j] == x);
        lemma_window_in_block(ws, idx.drop_last(), menu, width, x);
        let i = choose|i: int| block_at(front, lines, i);
        lemma_block_before(front, window_lines(ws[idx.last()], menu, width), lines, i);
        assert(block_at(whole, lines, i));
    }
}

/// A window in one of the groups has its lines in the groups' block.
proof fn lemma_window_in_groups(
    ws: Seq<Window>,
    gs: Seq<(Seq<char>, Seq<int>)>,
    l: Seq<SectionView>,
    menu: Seq<char>,
    width: usize,
    k: int,
    x: int,
)
    requires
        0 <= k < gs.len(),
        gs[k].1.contains(x),
    ensures
        exists|i: int| block_at(groups_block(ws, gs, l, menu, width), window_lines(ws[x], menu, width), i),
    decreases gs.len(),
{
    let lines = window_lines(ws[x], menu, width);
    let front = groups_block(ws, gs.drop_last(), l, menu, width);
    let sep = if gs.len() > 1 {
        seq![blank_line()]
    } else {
        seq![]
    };
    let head = seq![heading_line(gs.last().0, l)];
    let block = window_block(ws, gs.last().1, menu, width);
    assert(groups_block(ws, gs, l, menu, width) == front + sep + head + block);
    if k == gs.len() - 1 {
        lemma_window_in_block(ws, gs.last().1, menu, width, x);
        let i = choose|i: int| block_at(block, lines, i);
        lemma_block_after(front + sep + head, block, lines, i);
    } else {
        assert(gs.drop_last()[k] == gs[k]);
        lemma_window_in_groups(ws, gs.drop_last(), l, menu, width, k, x);
        let i = choose|i: int| block_at(front, lines, i);
        lemma_block_before(front, sep, lines, i);
        lemma_block_before(front + sep, head, lines, i);
        lemma_block_before(front + sep + head, block, lines, i);
    }
}

/// Every window the sidebar shows has its name line, and right below it,
/// whenever its clipped terminal title (leading `✳` marks dropped) is not
/// empty, a detail line with that title that switches to the window,
/// whether the window is active or not. The sidebar shows every window no
/// section claims, and, when no two windows share a non-empty id, every
/// window a section claims.
pub proof fn lemma_title_line_under_name(
    ws: Seq<Window>,
    l: Seq<SectionView>,
    menu: Seq<char>,
    width: usize,
    x: int,
)
    requires
        0 <= x < ws.len(),
        !is_assigned(ws[x], l) || ids_distinct(ws),
    ensures
        exists|i: int|
            0 <= i < layout_spec(ws, l, menu, width).len() && #[trigger] layout_spec(ws, l, menu, width)[i] == name_line(
                ws[x],
            ) && (title_text(ws[x], width).len() > 0 ==> i + 1 < layout_spec(ws, l, menu, width).len()
                && layout_spec(ws, l, menu, width)[i + 1] == (LineView {
                text: DETAIL_INDENT@ + title_text(ws[x], width),
                style: LineStyle::Detail { active: ws[x].active, bell: ws[x].bell },
                target: Some(TargetView::SwitchTo(ws[x].index@)),
            })),
{
    let gs = grouped_spec(ws, l);
    lemma_window_in_its_group(ws, l, x, 0);
    if is_assigned(ws[x], l) {
        let j = choose|j: int| 0 <= j < l.len() && #[trigger] l[j].windows.contains(ws[x].window_id@);
        assert(listed(ws, l[j].windows, x));
        lemma_window_in_its_group(ws, l, x, j);
    }
    let k = choose|k: int| 0 <= k < gs.len() && #[trigger] gs[k].1.contains(x);
    let lines = window_lines(ws[x], menu, width);
    lemma_window_in_groups(ws, gs, l, menu, width, k, x);
    let body = groups_block(ws, gs, l, menu, width);
    let i0 = choose|i: int| block_at(body, lines, i);
    lemma_block_after(seq![blank_line()], body, lines, i0);
    let out = layout_spec(ws, l, menu, width);
    let i = i0 + 1;
    assert(block_at(out, lines, i));
    assert(out[i] == out.subrange(i, i + lines.len())[0]);
    assert(lines[0] == name_line(ws[x]));
    if title_text(ws[x], width).len() > 0 {
        let t = title_lines(ws[x], width);
        assert(t.len() == 1);
        assert(lines[1] == t[0]);
        assert(out[i + 1] == out.subrange(i, i + lines.len())[1]);
    }
}

// ---------------------------------------------------------------------------
// Building the lines
// ---------------------------------------------------------------------------

fn blank() -> (r: VisualLine)
    ensures
        r@ == blank_line(),
{
    VisualLine { text: String::new(), style: LineStyle::Blank, target: None }
}

fn push_line(lines: &mut Vec<VisualLine>, line: VisualLine)
    ensures
        line_views(final(lines)@) == line_views(old(lines)@).push(line@),
{
    let ghost l = line@;
    lines.push(line);
    assert(line_views(lines@) =~= line_views(old(lines)@).push(l));
}

fn menu_matches(menu_window: &str, index: &String) -> (r: bool)
    ensures
        r == (menu_window@ == index@),
{
    str_is(menu_window, index.as_str())
}

fn push_menu_lines(lines: &mut Vec<VisualLine>, win: &Window)
    ensures
        line_views(final(lines)@) == line_views(old(lines)@) + menu_labels(has_pr_url(*win)).map_values(
            |a: Seq<char>| menu_line(win.index@, a),
        ),
{
    let has_url = match &win.pr {
        Some(pr) => !pr.url.as_str().is_empty(),
        None => false,
    };
    let labels = action_menu_labels(has_url);
    let ghost lv = labels@.map_values(|s: &'static str| s@);
    let ghost base = line_views(lines@);
    let mut k: usize = 0;
    while k < labels.len()
        invariant
            k <= labels.len(),
            lv == labels@.map_values(|s: &'static str| s@),
            lv == menu_labels(has_pr_url(*win)),
            line_views(lines@) == base + lv.take(k as int).map_values(
                |a: Seq<char>| menu_line(win.index@, a),
            ),
        decreases labels.len() - k,
    {
        let action = labels[k];
        let mut text = String::new();
        push_str(&mut text, "   ");
        push_str(&mut text, action);
        let line = VisualLine {
            text,
            style: LineStyle::Action,
            target: Some(Target::RunAction { index: win.index.clone(), action: String::from_str(action) }),
        };
        assert(line@ == menu_line(win.index@, lv[k as int]));
        push_line(lines, line);
        assert(lv.take(k as int + 1).map_values(|a: Seq<char>| menu_line(win.index@, a)) =~= lv.take(
            k as int,
        ).map_values(|a: Seq<char>| menu_line(win.index@, a)).push(menu_line(win.index@, lv[k as int])));
        k += 1;
    }
    assert(lv.take(labels.len() as int) =~= lv);
}

fn push_window_lines(lines: &mut Vec<VisualLine>, win: &Window, menu_window: &str, width: usize)
    ensures
        line_views(final(lines)@) == line_views(old(lines)@) + window_lines(
            *win,
            menu_window@,
            width,
        ),
{
    let ghost base = line_views(lines@);
    let active = win.active;
    let bell = win.bell;

    let mut name_text = String::new();
    push_str(&mut name_text, window_icon(win));
    push_str(&mut name_text, win.name.as_str());
    push_line(
        lines,
        VisualLine {
            text: name_text,
            style: LineStyle::WindowName { active, bell },
            target: Some(Target::SwitchTo(win.index.clone())),
        },
    );
    assert(line_views(lines@) =~= base + seq![name_line(*win)]);

    let tv = chars_of(win.title.as_str());
    let (a, _b) = trim_char_bounds(&tv, 0, tv.len(), '✳');
    assert(tv@.subrange(0, tv@.len() as int) =~= tv@);
    let stripped = string_of_range(&tv, a, tv.len());
    let title = clipped_text(stripped.as_str(), width);
    if !title.as_str().is_empty() {
        let mut text = String::new();
        push_str(&mut text, DETAIL_INDENT);
        push_str(&mut text, title.as_str());
        push_line(
            lines,
            VisualLine {
                text,
                style: LineStyle::Detail { active, bell },
                target: Some(Target::SwitchTo(win.index.clone())),
            },
        );
    }
    assert(line_views(lines@) =~= base + seq![name_line(*win)] + title_lines(*win, width));

    let ghost before_pr = line_views(lines@);
    match &win.pr {
        Some(pr) => {
            let pr_target = if pr.url.as_str().is_empty() {
                Target::SwitchTo(win.index.clone())
            } else {
                Target::OpenPr(win.index.clone())
            };
            let mut text = String::new();
            push_str(&mut text, DETAIL_INDENT);
            push_str(&mut text, "● PR #");
            push_decimal(&mut text, pr.number);
            push_char(&mut text, ' ');
            push_str(&mut text, pr.state.label());
            assert(text@ =~= DETAIL_INDENT@ + "● PR #"@ + decimal(pr.number as nat) + seq![' ']
                + pr_label(pr.state));
            push_line(
                lines,
                VisualLine {
                    text,
                    style: LineStyle::Pr { active, bell, state: pr.state },
                    target: Some(pr_target),
                },
            );
        },
        None => {},
    }
    assert(line_views(lines@) =~= before_pr + pr_lines(*win));
    assert(line_views(lines@) =~= base + seq![name_line(*win)] + title_lines(*win, width)
        + pr_lines(*win));

    push_line(lines, blank());
    let ghost before_menu = line_views(lines@);
    if menu_matches(menu_window, &win.index) {
        push_menu_lines(lines, win);
    }
    assert(line_views(lines@) =~= before_menu + menu_lines(*win, menu_window@));
    assert(line_views(lines@) =~= base + window_lines(*win, menu_window@, width));
}

fn section_named(sections: &SectionLayout, name: &String) -> (r: bool)
    ensures
        r == has_section(sections@, name@),
{
    let mut k: usize = 0;
    while k < sections.sections.len()
        invariant
            k <= sections.sections.len(),
            forall|q: int| 0 <= q < k ==> sections@[q].name != name@,
        decreases sections.sections.len() - k,
    {
        if sections.sections[k].name == *name {
            assert(sections@[k as int].name == name@);
            return true;
        }
        k += 1;
    }
    false
}

fn heading(name: &String, sections: &SectionLayout) -> (r: VisualLine)
    ensures
        r@ == heading_line(name@, sections@),
{
    let mut text = String::new();
    if str_is(name.as_str(), HERDR_GROUP) {
        push_str(&mut text, "🐑 ");
        push_str(&mut text, name.as_str());
    } else if section_named(sections, name) {
        push_str(&mut text, name.as_str());
    } else {
        push_str(&mut text, "📁 ");
        push_str(&mut text, name.as_str());
    }
    assert(text@ =~= group_heading(name@, sections@));
    VisualLine { text, style: LineStyle::Group, target: None }
}

/// Builds the visual lines of the sidebar, applying persistent custom
/// sections.
pub fn build_lines_with_sections(
    windows: &[Window],
    sections: &SectionLayout,
    menu_window: &str,
    width: usize,
) -> (r: Vec<VisualLine>)
    ensures
        line_views(r@) == layout_spec(windows@, sections@, menu_window@, width),
{
    let mut lines: Vec<VisualLine> = Vec::new();
    push_line(&mut lines, blank());
    let grouped = grouped_windows_with_sections(windows, sections);
    let ghost gs = grouped_spec(windows@, sections@);
    let ghost ws = windows@;
    let ghost l = sections@;
    let ghost menu = menu_window@;
    let mut gi: usize = 0;
    assert(gs.take(0) =~= Seq::<(Seq<char>, Seq<int>)>::empty());
    while gi < grouped.len()
        invariant
            gi <= grouped.len(),
            ws == windows@,
            l == sections@,
            menu == menu_window@,
            gs == grouped_spec(ws, l),
            groups_match(grouped@, ws, gs),
            line_views(lines@) == seq![blank_line()] + groups_block(
                ws,
                gs.take(gi as int),
                l,
                menu,
                width,
            ),
        decreases grouped.len() - gi,
    {
        let ghost g = gs[gi as int];
        assert(crate::model::group_match(grouped@[gi as int], ws, g));
        let ghost prefix = line_views(lines@);
        if gi > 0 {
            push_line(&mut lines, blank());
        }
        let group = &grouped[gi].0;
        let group_windows = &grouped[gi].1;
        push_line(&mut lines, heading(group, sections));
        let ghost with_head = line_views(lines@);
        let mut j: usize = 0;
        assert(g.1.take(0) =~= Seq::<int>::empty());
        while j < group_windows.len()
            invariant
                j <= group_windows.len(),
                crate::model::refs_match(group_windows@, ws, g.1),
                ws == windows@,
                menu == menu_window@,
                line_views(lines@) == with_head + window_block(ws, g.1.take(j as int), menu, width),
            decreases group_windows.len() - j,
        {
            let win: &Window = group_windows[j];
            assert(*win == ws[g.1[j as int]]);
            push_window_lines(&mut lines, win, menu_window, width);
            assert(g.1.take(j as int + 1).drop_last() =~= g.1.take(j as int));
            j += 1;
        }
        assert(g.1.take(group_windows.len() as int) =~= g.1);
        proof {
            let t = gs.take(gi as int + 1);
            assert(t.drop_last() =~= gs.take(gi as int));
            assert(t.last() == g);
            assert(line_views(lines@) =~= seq![blank_line()] + groups_block(ws, t, l, menu, width));
        }
        gi += 1;
    }
    assert(gs.take(grouped.len() as int) =~= gs);
    lines
}

/// Builds the visual lines of the sidebar with no custom sections.
pub fn build_lines(windows: &[Window], menu_window: &str, width: usize) -> (r: Vec<VisualLine>)
    ensures
        line_views(r@) == layout_spec(windows@, seq![], menu_window@, width),
{
    let layout = SectionLayout { sections: Vec::new() };
    assert(layout@ =~= Seq::<SectionView>::empty());
    build_lines_with_sections(windows, &layout, menu_window, width)
}

/// The click target of the line at `idx` (scroll offset included), if any.
pub fn target_at(lines: &[VisualLine], idx: usize) -> (r: Option<&Target>)
    ensures
        match r {
            Some(t) => idx < lines@.len() && lines@[idx as int].target == Some(*t),
            None => idx >= lines@.len() || lines@[idx as int].target is None,
        },
{
    if idx < lines.len() {
        match &lines[idx].target {
            Some(t) => Some(t),
            None => None,
        }
    } else {
        None
    }
}

} // verus!
