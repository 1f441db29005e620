//! tmux command layer: a `Tmux` trait (so callers can fake it) plus the
//! window and pane gathering logic.
//!
//! tmux's replies are outside this crate's control, so the functions that
//! run commands are specified over every reply: their results are the
//! parsers' results on some text. The parsers themselves are specified
//! exactly.
use vstd::prelude::*;

use crate::json::{
    bool_field_spec, json_bool_field, json_string_field, json_u64_field, string_field_spec,
    u64_field_spec,
};
use crate::model::{
    display_name_spec, join_path, path_join, pr_state_from_cache, project_group, project_group_spec,
    window_display_name, PrState, PullRequestStatus, Window,
};
use crate::sections::{clone_strings, string_list_contains, string_views};
use crate::text::{
    chars_eq, chars_of, ends_with, ends_with_chars, has_char, line_bounds, lines_of, parse_i64,
    parse_i64_spec, push_str, splitn_char, splitn_pieces, str_is, string_of, sub_vec,
    trim_char_bounds, trim_start_char,
};

verus! {

#[verifier::external_type_specification]
#[verifier::external_body]
pub struct ExIoError(std::io::Error);

/// Abstraction over running tmux. The real runtime shells out; tests fake it.
pub trait Tmux {
    /// Runs `tmux <args>` and returns its standard output without trailing
    /// newlines. Errors propagate.
    fn run(&self, args: &[&str]) -> std::io::Result<String>;
}

/// The text of a reply: the output, or empty when the command failed.
pub fn reply_text(r: std::io::Result<String>) -> (s: String)
    ensures
        match r {
            Ok(v) => s@ == v@,
            Err(_) => s@ == Seq::<char>::empty(),
        },
{
    match r {
        Ok(v) => v,
        Err(_) => String::new(),
    }
}

// ---------------------------------------------------------------------------
// Environment paths
// ---------------------------------------------------------------------------

/// Environment context resolved once at startup.
#[derive(Debug, Clone)]
pub struct Ctx {
    pub home: String,
    pub cwd: String,
    pub cache_home: String,
}

/// `<cache>/dotfiles/<name>`.
pub open spec fn dotfiles_dir(cache_home: Seq<char>, name: Seq<char>) -> Seq<char> {
    path_join(path_join(cache_home, "dotfiles"@), name)
}

/// `<cache>/dotfiles/tmux-tabs/<kind>/<session id without $>`.
pub open spec fn session_dir(cache_home: Seq<char>, kind: Seq<char>, session_id: Seq<char>) -> Seq<
    char,
> {
    path_join(path_join(dotfiles_dir(cache_home, "tmux-tabs"@), kind), trim_start_char(session_id, '$'))
}

fn session_number(session_id: &str) -> (r: String)
    ensures
        r@ == trim_start_char(session_id@, '$'),
{
    let v = chars_of(session_id);
    let (a, _b) = trim_char_bounds(&v, 0, v.len(), '$');
    assert(v@.subrange(0, v@.len() as int) =~= v@);
    crate::text::string_of_range(&v, a, v.len())
}

impl Ctx {
    /// Where agents drop their ready markers.
    pub fn agent_ready_dir(&self) -> (r: String)
        ensures
            r@ == dotfiles_dir(self.cache_home@, "agent-ready"@),
    {
        let d = join_path(self.cache_home.as_str(), "dotfiles");
        join_path(d.as_str(), "agent-ready")
    }

    /// Where generated descriptions of a session's windows are cached.
    pub fn descriptions_dir(&self, session_id: &str) -> (r: String)
        ensures
            r@ == session_dir(self.cache_home@, "descriptions"@, session_id@),
    {
        let d = join_path(self.cache_home.as_str(), "dotfiles");
        let d = join_path(d.as_str(), "tmux-tabs");
        let d = join_path(d.as_str(), "descriptions");
        let n = session_number(session_id);
        join_path(d.as_str(), n.as_str())
    }

    /// Where PR status records are cached.
    pub fn pr_status_dir(&self) -> (r: String)
        ensures
            r@ == dotfiles_dir(self.cache_home@, "pr-status"@),
    {
        let d = join_path(self.cache_home.as_str(), "dotfiles");
        join_path(d.as_str(), "pr-status")
    }

    /// The file holding a session's custom sections:
    /// `<cache>/dotfiles/tmux-tabs/sections/<session id without $>.json`.
    pub fn sections_path(&self, session_id: &str) -> (r: String)
        ensures
            r@ == path_join(
                path_join(dotfiles_dir(self.cache_home@, "tmux-tabs"@), "sections"@),
                trim_start_char(session_id@, '$') + ".json"@,
            ),
    {
        let d = join_path(self.cache_home.as_str(), "dotfiles");
        let d = join_path(d.as_str(), "tmux-tabs");
        let d = join_path(d.as_str(), "sections");
        let mut n = session_number(session_id);
        push_str(&mut n, ".json");
        join_path(d.as_str(), n.as_str())
    }
}

// ---------------------------------------------------------------------------
// Simple queries
// ---------------------------------------------------------------------------

/// Sends one command, given as its words, to tmux.
pub(crate) fn run_words<T: Tmux>(t: &T, words: &Vec<String>) -> std::io::Result<String> {
    let mut args: Vec<&str> = Vec::new();
    let mut j: usize = 0;
    while j < words.len()
        decreases words.len() - j,
    {
        args.push(words[j].as_str());
        j += 1;
    }
    t.run(args.as_slice())
}

fn word(s: &str) -> (r: String)
    ensures
        r@ == s@,
{
    String::from_str(s)
}

/// `display-message -p <fmt>`.
pub open spec fn display_command_spec(fmt: Seq<char>) -> Seq<Seq<char>> {
    seq!["display-message"@, "-p"@, fmt]
}

/// The command that expands a format for the current pane.
pub fn display_command(fmt: &str) -> (r: Vec<String>)
    ensures
        string_views(r@) == display_command_spec(fmt@),
{
    let r = vec![word("display-message"), word("-p"), word(fmt)];
    assert(string_views(r@) =~= display_command_spec(fmt@));
    r
}

/// `display-message -p -t <pane> <fmt>`.
pub open spec fn pane_var_command_spec(pane: Seq<char>, fmt: Seq<char>) -> Seq<Seq<char>> {
    seq!["display-message"@, "-p"@, "-t"@, pane, fmt]
}

/// The command that expands a format for a given pane.
pub fn pane_var_command(pane: &str, fmt: &str) -> (r: Vec<String>)
    ensures
        string_views(r@) == pane_var_command_spec(pane@, fmt@),
{
    let r = vec![word("display-message"), word("-p"), word("-t"), word(pane), word(fmt)];
    assert(string_views(r@) =~= pane_var_command_spec(pane@, fmt@));
    r
}

/// `display-message -p <fmt>` (`display_command`): the expanded format, or
/// empty on failure (`reply_text`).
pub fn display<T: Tmux>(t: &T, fmt: &str) -> String {
    reply_text(run_words(t, &display_command(fmt)))
}

/// `display-message -p -t <pane> <fmt>` (`pane_var_command`): the format
/// expanded for a pane, or empty on failure (`reply_text`).
pub fn pane_var<T: Tmux>(t: &T, pane: &str, fmt: &str) -> String {
    reply_text(run_words(t, &pane_var_command(pane, fmt)))
}

// ---------------------------------------------------------------------------
// Panes
// ---------------------------------------------------------------------------

#[derive(Debug, Clone)]
pub struct PaneRecord {
    pub id: String,
    pub left: i64,
    pub top: i64,
    pub active: bool,
    pub command: String,
    pub title: String,
    pub path: String,
}

pub struct PaneView {
    pub id: Seq<char>,
    pub left: i64,
    pub top: i64,
    pub active: bool,
    pub command: Seq<char>,
    pub title: Seq<char>,
    pub path: Seq<char>,
}

impl View for PaneRecord {
    type V = PaneView;

    open spec fn view(&self) -> PaneView {
        PaneView {
            id: self.id@,
            left: self.left,
            top: self.top,
            active: self.active,
            command: self.command@,
            title: self.title@,
            path: self.path@,
        }
    }
}

pub open spec fn pane_views(v: Seq<PaneRecord>) -> Seq<PaneView> {
    v.map_values(|p: PaneRecord| p@)
}

pub open spec fn int_or_zero(s: Seq<char>) -> i64 {
    match parse_i64_spec(s) {
        Some(x) => x,
        None => 0,
    }
}

/// One `id|left|top|active|command|title|path` line; lines with fewer
/// fields are skipped.
pub open spec fn pane_line(line: Seq<char>) -> Option<PaneView> {
    let p = splitn_char(line, '|', 7);
    if p.len() < 7 {
        None
    } else {
        Some(
            PaneView {
                id: p[0],
                left: int_or_zero(p[1]),
                top: int_or_zero(p[2]),
                active: p[3] == "1"@,
                command: p[4],
                title: p[5],
                path: p[6],
            },
        )
    }
}

pub open spec fn pane_lines(lines: Seq<Seq<char>>) -> Seq<PaneView>
    decreases lines.len(),
{
    if lines.len() == 0 {
        seq![]
    } else {
        pane_lines(lines.drop_last()) + match pane_line(lines.last()) {
            Some(p) => seq![p],
            None => seq![],
        }
    }
}

/// The pane records listed in a `list-panes` reply.
pub open spec fn pane_records_spec(out: Seq<char>) -> Seq<PaneView> {
    pane_lines(lines_of(out))
}

/// The format `pane_records` asks `list-panes` for.
pub const PANE_FORMAT: &'static str = "#{pane_id}|#{pane_left}|#{pane_top}|#{pane_active}|#{pane_current_command}|#{pane_title}|#{pane_current_path}";

fn int_field(v: &Vec<char>) -> (r: i64)
    ensures
        r == int_or_zero(v@),
{
    assert(v@.subrange(0, v@.len() as int) =~= v@);
    match parse_i64(v.as_slice(), 0, v.len()) {
        Some(x) => x,
        None => 0,
    }
}

/// Parses the records of a `list-panes` reply in `PANE_FORMAT`.
pub fn parse_pane_records(out: &str) -> (r: Vec<PaneRecord>)
    ensures
        pane_views(r@) == pane_records_spec(out@),
{
    let v = chars_of(out);
    let bounds = line_bounds(v.as_slice());
    let ghost lines = lines_of(v@);
    let mut r: Vec<PaneRecord> = Vec::new();
    let mut k: usize = 0;
    assert(lines.take(0) =~= Seq::<Seq<char>>::empty());
    while k < bounds.len()
        invariant
            k <= bounds.len(),
            lines == lines_of(v@),
            bounds@.len() == lines.len(),
            forall|q: int|
                0 <= q < bounds@.len() ==> {
                    &&& (#[trigger] bounds@[q]).0 <= bounds@[q].1 <= v@.len()
                    &&& v@.subrange(bounds@[q].0 as int, bounds@[q].1 as int) == lines[q]
                },
            pane_views(r@) == pane_lines(lines.take(k as int)),
        decreases bounds.len() - k,
    {
        let (a, b) = bounds[k];
        let line = sub_vec(v.as_slice(), a, b);
        let parts = splitn_pieces(line.as_slice(), '|', 7);
        let ghost pv = parts@.map_values(|p: Vec<char>| p@);
        let ghost before = pane_views(r@);
        proof {
            let t = lines.take(k as int + 1);
            assert(t.drop_last() =~= lines.take(k as int));
            assert(t.last() == line@);
        }
        if parts.len() >= 7 {
            assert(pv[3] == parts@[3]@);
            let rec = PaneRecord {
                id: string_of(parts[0].as_slice()),
                left: int_field(&parts[1]),
                top: int_field(&parts[2]),
                active: chars_eq(parts[3].as_slice(), chars_of("1").as_slice()),
                command: string_of(parts[4].as_slice()),
                title: string_of(parts[5].as_slice()),
                path: string_of(parts[6].as_slice()),
            };
            r.push(rec);
            assert(pane_views(r@) =~= before.push(pane_line(line@)->0));
        }
        k += 1;
    }
    assert(lines.take(bounds.len() as int) =~= lines);
    r
}

/// `list-panes -t <window> -F PANE_FORMAT`.
pub open spec fn list_panes_command_spec(win_index: Seq<char>) -> Seq<Seq<char>> {
    seq!["list-panes"@, "-t"@, win_index, "-F"@, PANE_FORMAT@]
}

/// The command that lists a window's panes.
pub fn list_panes_command(win_index: &str) -> (r: Vec<String>)
    ensures
        string_views(r@) == list_panes_command_spec(win_index@),
{
    let r = vec![word("list-panes"), word("-t"), word(win_index), word("-F"), word(PANE_FORMAT)];
    assert(string_views(r@) =~= list_panes_command_spec(win_index@));
    r
}

/// The pane records of window `win_index`, as `list-panes` reports them
/// (`list_panes_command`, read by `parse_pane_records`).
pub fn pane_records<T: Tmux>(t: &T, win_index: &str) -> (r: Vec<PaneRecord>)
    ensures
        exists|out: Seq<char>| #[trigger] pane_records_spec(out) == pane_views(r@),
{
    let out = reply_text(run_words(t, &list_panes_command(win_index)));
    let r = parse_pane_records(out.as_str());
    assert(pane_records_spec(out@) == pane_views(r@));
    r
}

/// The sidebar's own pane: titled `tmux-tabs`, running `tmux-tabs`, or a
/// Python process sitting in `~/dev`.
pub open spec fn sidebar_pane_spec(command: Seq<char>, title: Seq<char>, path: Seq<char>, home: Seq<char>) -> bool {
    title == "tmux-tabs"@ || (command == "Python"@ && path == home + "/dev"@) || command
        == "tmux-tabs"@
}

/// Whether a pane is the sidebar itself.
pub fn is_sidebar_pane(command: &str, title: &str, path: &str, home: &str) -> (r: bool)
    ensures
        r == sidebar_pane_spec(command@, title@, path@, home@),
{
    let mut dev = String::new();
    push_str(&mut dev, home);
    push_str(&mut dev, "/dev");
    assert(dev@ =~= home@ + "/dev"@);
    str_is(title, "tmux-tabs") || (str_is(command, "Python") && str_is(path, dev.as_str()))
        || str_is(command, "tmux-tabs")
}

/// The panes that are not the sidebar, in order.
pub open spec fn non_sidebar(p: Seq<PaneView>, home: Seq<char>) -> Seq<PaneView>
    decreases p.len(),
{
    if p.len() == 0 {
        seq![]
    } else {
        non_sidebar(p.drop_last(), home) + (if sidebar_pane_spec(
            p.last().command,
            p.last().title,
            p.last().path,
            home,
        ) {
            seq![]
        } else {
            seq![p.last()]
        })
    }
}

/// The content panes: those that are not the sidebar, or every pane when
/// only the sidebar is there.
pub open spec fn content_spec(p: Seq<PaneView>, home: Seq<char>) -> Seq<PaneView> {
    if non_sidebar(p, home).len() == 0 {
        p
    } else {
        non_sidebar(p, home)
    }
}

pub open spec fn first_active_from(c: Seq<PaneView>, k: int) -> Option<int>
    decreases c.len() - k,
{
    if k < 0 || k >= c.len() {
        None
    } else if c[k].active {
        Some(k)
    } else {
        first_active_from(c, k + 1)
    }
}

/// The pane that stands for a window: its first active content pane, else
/// its first content pane.
pub open spec fn representative_spec(p: Seq<PaneView>, home: Seq<char>) -> Option<PaneView> {
    let c = content_spec(p, home);
    match first_active_from(c, 0) {
        Some(i) => Some(c[i]),
        None => if c.len() > 0 {
            Some(c[0])
        } else {
            None
        },
    }
}

/// `(left, top)` of `a` sorts before that of `b`.
pub open spec fn sorts_before(a: PaneView, b: PaneView) -> bool {
    a.left < b.left || (a.left == b.left && a.top < b.top)
}

/// Index of the first pane among `c[..n]` with the smallest `(left, top)`.
pub open spec fn leftmost_index(c: Seq<PaneView>, n: int) -> int
    decreases n,
{
    if n <= 1 {
        0
    } else {
        let b = leftmost_index(c, n - 1);
        if sorts_before(c[n - 1], c[b]) {
            n - 1
        } else {
            b
        }
    }
}

/// The id of the top-left content pane, or empty when there is none.
pub open spec fn leftmost_spec(p: Seq<PaneView>, home: Seq<char>) -> Seq<char> {
    let c = content_spec(p, home);
    if c.len() == 0 {
        seq![]
    } else {
        c[leftmost_index(c, c.len() as int)].id
    }
}

pub open spec fn ref_views<'a>(v: Seq<&'a PaneRecord>) -> Seq<PaneView> {
    v.map_values(|p: &'a PaneRecord| p@)
}

fn content_panes<'a>(panes: &'a [PaneRecord], home: &str) -> (r: Vec<&'a PaneRecord>)
    ensures
        ref_views(r@) == content_spec(pane_views(panes@), home@),
{
    let ghost all = pane_views(panes@);
    let mut filtered: Vec<&'a PaneRecord> = Vec::new();
    let mut k: usize = 0;
    assert(all.take(0) =~= Seq::<PaneView>::empty());
    while k < panes.len()
        invariant
            k <= panes.len(),
            all == pane_views(panes@),
            ref_views(filtered@) == non_sidebar(all.take(k as int), home@),
        decreases panes.len() - k,
    {
        let p = &panes[k];
        proof {
            let t = all.take(k as int + 1);
            assert(t.drop_last() =~= all.take(k as int));
            assert(t.last() == p@);
        }
        if !is_sidebar_pane(p.command.as_str(), p.title.as_str(), p.path.as_str(), home) {
            let ghost before = ref_views(filtered@);
            filtered.push(p);
            assert(ref_views(filtered@) =~= before.push(p@));
        } else {
            assert(non_sidebar(all.take(k as int + 1), home@) =~= non_sidebar(all.take(k as int), home@));
        }
        k += 1;
    }
    assert(all.take(panes.len() as int) =~= all);
    if filtered.len() == 0 {
        let mut every: Vec<&'a PaneRecord> = Vec::new();
        let mut j: usize = 0;
        while j < panes.len()
            invariant
                j <= panes.len(),
                all == pane_views(panes@),
                ref_views(every@) == all.take(j as int),
            decreases panes.len() - j,
        {
            let ghost before = ref_views(every@);
            every.push(&panes[j]);
            assert(all[j as int] == panes@[j as int]@);
            assert(ref_views(every@) =~= before.push(panes@[j as int]@));
            assert(all.take(j as int + 1) =~= all.take(j as int).push(all[j as int]));
            j += 1;
        }
        assert(all.take(panes.len() as int) =~= all);
        every
    } else {
        filtered
    }
}

fn representative_pane<'a>(panes: &'a [PaneRecord], home: &str) -> (r: Option<&'a PaneRecord>)
    ensures
        match r {
            Some(p) => representative_spec(pane_views(panes@), home@) == Some(p@),
            None => representative_spec(pane_views(panes@), home@) is None,
        },
{
    let candidates = content_panes(panes, home);
    let ghost c = ref_views(candidates@);
    let mut k: usize = 0;
    while k < candidates.len()
        invariant
            k <= candidates.len(),
            c == ref_views(candidates@),
            c == content_spec(pane_views(panes@), home@),
            first_active_from(c, 0) == first_active_from(c, k as int),
        decreases candidates.len() - k,
    {
        if candidates[k].active {
            assert(c[k as int] == candidates@[k as int]@);
            return Some(candidates[k]);
        }
        k += 1;
    }
    if candidates.len() > 0 {
        Some(candidates[0])
    } else {
        None
    }
}

/// The id of the top-left content pane among pane records, or empty.
pub fn leftmost_pane(panes: &Vec<PaneRecord>, home: &str) -> (r: String)
    ensures
        r@ == leftmost_spec(pane_views(panes@), home@),
{
    let content = content_panes(panes.as_slice(), home);
    let ghost c = ref_views(content@);
    if content.len() == 0 {
        assert(leftmost_spec(pane_views(panes@), home@) == Seq::<char>::empty());
        return String::new();
    }
    let mut best: usize = 0;
    let mut k: usize = 1;
    while k < content.len()
        invariant
            1 <= k <= content.len(),
            c == ref_views(content@),
            best == leftmost_index(c, k as int),
            best < k,
        decreases content.len() - k,
    {
        let p = content[k];
        let b = content[best];
        if p.left < b.left || (p.left == b.left && p.top < b.top) {
            best = k;
        }
        k += 1;
    }
    content[best].id.clone()
}

/// The id of the top-left content pane of a window (`list_panes_command`,
/// `leftmost_pane`), or empty.
pub fn leftmost_active_pane<T: Tmux>(t: &T, win_index: &str, home: &str) -> (r: String)
    ensures
        exists|out: Seq<char>| #[trigger] leftmost_spec(pane_records_spec(out), home@) == r@,
{
    let panes = pane_records(t, win_index);
    let ghost out = choose|out: Seq<char>| #[trigger] pane_records_spec(out) == pane_views(panes@);
    let r = leftmost_pane(&panes, home);
    assert(leftmost_spec(pane_records_spec(out), home@) == r@);
    r
}

/// The id of the pane that stands for a window, or empty.
pub open spec fn active_pane_spec(p: Seq<PaneView>, home: Seq<char>) -> Seq<char> {
    match representative_spec(p, home) {
        Some(r) => r.id,
        None => seq![],
    }
}

/// The id of the pane that stands for a window among its pane records, or
/// empty.
pub fn active_pane_of(panes: &Vec<PaneRecord>, home: &str) -> (r: String)
    ensures
        r@ == active_pane_spec(pane_views(panes@), home@),
{
    match representative_pane(panes.as_slice(), home) {
        Some(p) => p.id.clone(),
        None => String::new(),
    }
}

/// The id of the pane that stands for a window (`list_panes_command`,
/// `active_pane_of`), or empty.
pub fn active_pane<T: Tmux>(t: &T, win_index: &str, home: &str) -> (r: String)
    ensures
        exists|out: Seq<char>| #[trigger] active_pane_spec(pane_records_spec(out), home@) == r@,
{
    let panes = pane_records(t, win_index);
    let ghost out = choose|out: Seq<char>| #[trigger] pane_records_spec(out) == pane_views(panes@);
    let r = active_pane_of(&panes, home);
    assert(active_pane_spec(pane_records_spec(out), home@) == r@);
    r
}

// ---------------------------------------------------------------------------
// Panes by window
// ---------------------------------------------------------------------------

/// The first entry of `m` whose key is `key`, at or after `k`.
pub open spec fn key_index_from(m: Seq<(Seq<char>, Seq<Seq<char>>)>, key: Seq<char>, k: int) -> Option<int>
    decreases m.len() - k,
{
    if k < 0 || k >= m.len() {
        None
    } else if m[k].0 == key {
        Some(k)
    } else {
        key_index_from(m, key, k + 1)
    }
}

pub open spec fn key_index(m: Seq<(Seq<char>, Seq<Seq<char>>)>, key: Seq<char>) -> Option<int> {
    key_index_from(m, key, 0)
}

/// `id` appended to the entry for `key`, which is added at the end when new.
pub open spec fn map_add(m: Seq<(Seq<char>, Seq<Seq<char>>)>, key: Seq<char>, id: Seq<char>) -> Seq<
    (Seq<char>, Seq<Seq<char>>),
> {
    match key_index(m, key) {
        Some(i) => m.update(i, (key, m[i].1.push(id))),
        None => m.push((key, seq![id])),
    }
}

/// One `window|pane|command|title|path` line: the pane joins its window's
/// list unless it is the sidebar.
pub open spec fn pane_map_line(m: Seq<(Seq<char>, Seq<Seq<char>>)>, line: Seq<char>, home: Seq<char>) -> Seq<
    (Seq<char>, Seq<Seq<char>>),
> {
    let p = splitn_char(line, '|', 5);
    if p.len() < 5 || sidebar_pane_spec(p[2], p[3], p[4], home) {
        m
    } else {
        map_add(m, p[0], p[1])
    }
}

pub open spec fn pane_map_lines(lines: Seq<Seq<char>>, home: Seq<char>) -> Seq<(Seq<char>, Seq<Seq<char>>)>
    decreases lines.len(),
{
    if lines.len() == 0 {
        seq![]
    } else {
        pane_map_line(pane_map_lines(lines.drop_last(), home), lines.last(), home)
    }
}

/// Window index to content pane ids, windows in order of first appearance,
/// as read from a session-wide `list-panes` reply.
pub open spec fn pane_map_spec(out: Seq<char>, home: Seq<char>) -> Seq<(Seq<char>, Seq<Seq<char>>)> {
    pane_map_lines(lines_of(out), home)
}

pub open spec fn map_views(v: Seq<(String, Vec<String>)>) -> Seq<(Seq<char>, Seq<Seq<char>>)> {
    v.map_values(|e: (String, Vec<String>)| (e.0@, string_views(e.1@)))
}

fn map_key_index(m: &Vec<(String, Vec<String>)>, key: &String) -> (r: Option<usize>)
    ensures
        r matches Some(i) ==> key_index(map_views(m@), key@) == Some(i as int) && i < m@.len(),
        r is None ==> key_index(map_views(m@), key@) is None,
{
    let ghost mv = map_views(m@);
    let mut k: usize = 0;
    while k < m.len()
        invariant
            k <= m.len(),
            mv == map_views(m@),
            key_index(mv, key@) == key_index_from(mv, key@, k as int),
        decreases m.len() - k,
    {
        if m[k].0 == *key {
            return Some(k);
        }
        k += 1;
    }
    None
}

/// Adds `id` to the entry for `key`.
fn map_insert(m: &mut Vec<(String, Vec<String>)>, key: String, id: String)
    ensures
        map_views(final(m)@) == map_add(map_views(old(m)@), key@, id@),
{
    let ghost before = map_views(m@);
    match map_key_index(m, &key) {
        Some(i) => {
            let mut ids = clone_strings(&m[i].1);
            let ghost kv = key@;
            let ghost iv = id@;
            ids.push(id);
            assert(string_views(ids@) =~= before[i as int].1.push(iv));
            m.set(i, (key, ids));
            assert(map_views(m@) =~= before.update(i as int, (kv, before[i as int].1.push(iv))));
        },
        None => {
            let ghost kv = key@;
            let ghost iv = id@;
            let mut ids: Vec<String> = Vec::new();
            ids.push(id);
            assert(string_views(ids@) =~= seq![iv]);
            m.push((key, ids));
            assert(map_views(m@) =~= before.push((kv, seq![iv])));
        },
    }
}

/// Parses a session-wide `list-panes` reply into window index to content
/// pane ids.
pub fn parse_pane_map(out: &str, home: &str) -> (r: Vec<(String, Vec<String>)>)
    ensures
        map_views(r@) == pane_map_spec(out@, home@),
{
    let v = chars_of(out);
    let bounds = line_bounds(v.as_slice());
    let ghost lines = lines_of(v@);
    let mut m: Vec<(String, Vec<String>)> = Vec::new();
    let mut k: usize = 0;
    assert(lines.take(0) =~= Seq::<Seq<char>>::empty());
    while k < bounds.len()
        invariant
            k <= bounds.len(),
            lines == lines_of(v@),
            bounds@.len() == lines.len(),
            forall|q: int|
                0 <= q < bounds@.len() ==> {
                    &&& (#[trigger] bounds@[q]).0 <= bounds@[q].1 <= v@.len()
                    &&& v@.subrange(bounds@[q].0 as int, bounds@[q].1 as int) == lines[q]
                },
            map_views(m@) == pane_map_lines(lines.take(k as int), home@),
        decreases bounds.len() - k,
    {
        let (a, b) = bounds[k];
        let line = sub_vec(v.as_slice(), a, b);
        let parts = splitn_pieces(line.as_slice(), '|', 5);
        proof {
            let t = lines.take(k as int + 1);
            assert(t.drop_last() =~= lines.take(k as int));
            assert(t.last() == line@);
        }
        if parts.len() >= 5 {
            let command = string_of(parts[2].as_slice());
            let title = string_of(parts[3].as_slice());
            let path = string_of(parts[4].as_slice());
            if !is_sidebar_pane(command.as_str(), title.as_str(), path.as_str(), home) {
                map_insert(&mut m, string_of(parts[0].as_slice()), string_of(parts[1].as_slice()));
            }
        }
        k += 1;
    }
    assert(lines.take(bounds.len() as int) =~= lines);
    m
}

/// The format `pane_ids_by_window` asks `list-panes -s` for.
pub const SESSION_PANE_FORMAT: &'static str = "#{window_index}|#{pane_id}|#{pane_current_command}|#{pane_title}|#{pane_current_path}";

/// `list-panes -s -F SESSION_PANE_FORMAT`.
pub open spec fn session_panes_command_spec() -> Seq<Seq<char>> {
    seq!["list-panes"@, "-s"@, "-F"@, SESSION_PANE_FORMAT@]
}

/// The command that lists every pane of the session.
pub fn session_panes_command() -> (r: Vec<String>)
    ensures
        string_views(r@) == session_panes_command_spec(),
{
    let r = vec![word("list-panes"), word("-s"), word("-F"), word(SESSION_PANE_FORMAT)];
    assert(string_views(r@) =~= session_panes_command_spec());
    r
}

/// Window index to content pane ids (the sidebar pane excluded), for the
/// whole session (`session_panes_command`, read by `parse_pane_map`).
pub fn pane_ids_by_window<T: Tmux>(t: &T, home: &str) -> (r: Vec<(String, Vec<String>)>)
    ensures
        exists|out: Seq<char>| #[trigger] pane_map_spec(out, home@) == map_views(r@),
{
    let out = reply_text(run_words(t, &session_panes_command()));
    let r = parse_pane_map(out.as_str(), home);
    assert(pane_map_spec(out@, home@) == map_views(r@));
    r
}

/// Every pane id of the map, window by window.
pub open spec fn all_ids(m: Seq<(Seq<char>, Seq<Seq<char>>)>) -> Seq<Seq<char>>
    decreases m.len(),
{
    if m.len() == 0 {
        seq![]
    } else {
        all_ids(m.drop_last()) + m.last().1
    }
}

/// The live pane ids: every pane of every window.
pub fn live_pane_ids(window_panes: &Vec<(String, Vec<String>)>) -> (r: Vec<String>)
    ensures
        string_views(r@) == all_ids(map_views(window_panes@)),
{
    let ghost mv = map_views(window_panes@);
    let mut r: Vec<String> = Vec::new();
    let mut k: usize = 0;
    assert(mv.take(0) =~= Seq::<(Seq<char>, Seq<Seq<char>>)>::empty());
    while k < window_panes.len()
        invariant
            k <= window_panes.len(),
            mv == map_views(window_panes@),
            string_views(r@) == all_ids(mv.take(k as int)),
        decreases window_panes.len() - k,
    {
        let ids = &window_panes[k].1;
        let ghost before = string_views(r@);
        let mut j: usize = 0;
        while j < ids.len()
            invariant
                j <= ids.len(),
                string_views(r@) == before + string_views(ids@).take(j as int),
            decreases ids.len() - j,
        {
            let ghost prev = string_views(r@);
            let c = ids[j].clone();
            let ghost cv = c@;
            r.push(c);
            assert(cv == string_views(ids@)[j as int]);
            assert(string_views(r@) =~= prev.push(cv));
            assert(string_views(ids@).take(j as int + 1) =~= string_views(ids@).take(j as int).push(cv));
            assert(string_views(r@) =~= before + string_views(ids@).take(j as int + 1));
            j += 1;
        }
        proof {
            assert(string_views(ids@).take(ids.len() as int) =~= string_views(ids@));
            let t = mv.take(k as int + 1);
            assert(t.drop_last() =~= mv.take(k as int));
            assert(t.last().1 == string_views(ids@));
        }
        k += 1;
    }
    assert(mv.take(window_panes.len() as int) =~= mv);
    r
}

// ---------------------------------------------------------------------------
// Cached files
// ---------------------------------------------------------------------------

/// Cache files the window list reads, each as its file name and text: the
/// agent-ready markers, the session's description records, and the PR
/// status records.
#[derive(Debug, Clone, Default)]
pub struct CacheFiles {
    pub ready_markers: Vec<(String, String)>,
    pub descriptions: Vec<(String, String)>,
    pub pr_status: Vec<(String, String)>,
}

pub open spec fn file_views(v: Seq<(String, String)>) -> Seq<(Seq<char>, Seq<char>)> {
    v.map_values(|e: (String, String)| (e.0@, e.1@))
}

pub open spec fn file_index_from(files: Seq<(Seq<char>, Seq<char>)>, name: Seq<char>, k: int) -> Option<int>
    decreases files.len() - k,
{
    if k < 0 || k >= files.len() {
        None
    } else if files[k].0 == name {
        Some(k)
    } else {
        file_index_from(files, name, k + 1)
    }
}

/// The text of the file called `name`, if there is one.
pub open spec fn file_text(files: Seq<(Seq<char>, Seq<char>)>, name: Seq<char>) -> Option<Seq<char>> {
    match file_index_from(files, name, 0) {
        Some(i) => Some(files[i].1),
        None => None,
    }
}

fn find_file<'a>(files: &'a Vec<(String, String)>, name: &String) -> (r: Option<&'a String>)
    ensures
        match r {
            Some(t) => file_text(file_views(files@), name@) == Some(t@),
            None => file_text(file_views(files@), name@) is None,
        },
{
    let ghost fv = file_views(files@);
    let mut k: usize = 0;
    while k < files.len()
        invariant
            k <= files.len(),
            fv == file_views(files@),
            file_index_from(fv, name@, 0) == file_index_from(fv, name@, k as int),
        decreases files.len() - k,
    {
        if files[k].0 == *name {
            return Some(&files[k].1);
        }
        k += 1;
    }
    None
}

/// A marker file counts when its name has the `json` extension.
pub open spec fn json_file_name(name: Seq<char>) -> bool {
    name.len() > 5 && ends_with(name, ".json"@)
}

/// The pane a ready marker names, if it is a JSON marker with a `pane`.
pub open spec fn marker_pane(m: (Seq<char>, Seq<char>)) -> Option<Seq<char>> {
    if json_file_name(m.0) {
        string_field_spec(m.1, "pane"@)
    } else {
        None
    }
}

/// A pane is ready when it is live and some marker names it.
pub open spec fn is_ready_pane(markers: Seq<(Seq<char>, Seq<char>)>, live: Seq<Seq<char>>, p: Seq<char>) -> bool {
    live.contains(p) && exists|k: int| 0 <= k < markers.len() && marker_pane(markers[k]) == Some(p)
}

/// The markers that name a pane that is no longer live, by file name.
pub open spec fn stale_markers(markers: Seq<(Seq<char>, Seq<char>)>, live: Seq<Seq<char>>) -> Seq<Seq<char>>
    decreases markers.len(),
{
    if markers.len() == 0 {
        seq![]
    } else {
        stale_markers(markers.drop_last(), live) + match marker_pane(markers.last()) {
            Some(p) => if live.contains(p) {
                seq![]
            } else {
                seq![markers.last().0]
            },
            None => seq![],
        }
    }
}

fn marker_pane_of(name: &String, text: &String) -> (r: Option<String>)
    ensures
        match r {
            Some(p) => marker_pane((name@, text@)) == Some(p@),
            None => marker_pane((name@, text@)) is None,
        },
{
    let n = chars_of(name.as_str());
    if n.len() > 5 && ends_with_chars(n.as_slice(), chars_of(".json").as_slice()) {
        json_string_field(text.as_str(), "pane")
    } else {
        None
    }
}

proof fn lemma_push_contains(s: Seq<Seq<char>>, v: Seq<char>, x: Seq<char>)
    ensures
        s.push(v).contains(x) == (s.contains(x) || x == v),
{
    if s.contains(x) {
        let i = choose|i: int| 0 <= i < s.len() && s[i] == x;
        assert(s.push(v)[i] == x);
    }
    if x == v {
        assert(s.push(v)[s.len() as int] == v);
    }
    if s.push(v).contains(x) && x != v {
        let i = choose|i: int| 0 <= i < s.push(v).len() && s.push(v)[i] == x;
        assert(s[i] == x);
    }
}

/// Panes flagged ready by agent-ready markers that are still live.
pub fn ready_panes(markers: &Vec<(String, String)>, live: &Vec<String>) -> (r: Vec<String>)
    ensures
        forall|p: Seq<char>|
            #[trigger] string_views(r@).contains(p) == is_ready_pane(
                file_views(markers@),
                string_views(live@),
                p,
            ),
{
    let ghost mv = file_views(markers@);
    let ghost lv = string_views(live@);
    let mut r: Vec<String> = Vec::new();
    let mut k: usize = 0;
    while k < markers.len()
        invariant
            k <= markers.len(),
            mv == file_views(markers@),
            lv == string_views(live@),
            forall|p: Seq<char>|
                #[trigger] string_views(r@).contains(p) == (lv.contains(p) && exists|q: int|
                    0 <= q < k && marker_pane(mv[q]) == Some(p)),
        decreases markers.len() - k,
    {
        let ghost before = string_views(r@);
        match marker_pane_of(&markers[k].0, &markers[k].1) {
            Some(p) => {
                if string_list_contains(live.as_slice(), &p) {
                    let ghost pv = p@;
                    r.push(p);
                    assert(string_views(r@) =~= before.push(pv));
                    assert(mv[k as int] == (markers@[k as int].0@, markers@[k as int].1@));
                    assert(marker_pane(mv[k as int]) == Some(pv));
                    assert forall|x: Seq<char>|
                        #[trigger] string_views(r@).contains(x) == (lv.contains(x) && exists|q: int|
                            0 <= q < k + 1 && marker_pane(mv[q]) == Some(x)) by {
                        lemma_push_contains(before, pv, x);
                        if x == pv {
                            assert(0 <= k < k + 1 && marker_pane(mv[k as int]) == Some(x));
                        }
                        if lv.contains(x) && exists|q: int| 0 <= q < k + 1 && marker_pane(mv[q]) == Some(x) {
                            let q = choose|q: int| 0 <= q < k + 1 && marker_pane(mv[q]) == Some(x);
                            if q < k {
                                assert(exists|q: int| 0 <= q < k && marker_pane(mv[q]) == Some(x));
                            }
                        }
                        if before.contains(x) {
                            assert(exists|q: int| 0 <= q < k && marker_pane(mv[q]) == Some(x));
                            let q = choose|q: int| 0 <= q < k && marker_pane(mv[q]) == Some(x);
                            assert(0 <= q < k + 1 && marker_pane(mv[q]) == Some(x));
                        }
                    }
                } else {
                    assert(mv[k as int] == (markers@[k as int].0@, markers@[k as int].1@));
                    assert forall|x: Seq<char>|
                        #[trigger] string_views(r@).contains(x) == (lv.contains(x) && exists|q: int|
                            0 <= q < k + 1 && marker_pane(mv[q]) == Some(x)) by {
                        if lv.contains(x) && exists|q: int| 0 <= q < k + 1 && marker_pane(mv[q]) == Some(x) {
                            let q = choose|q: int| 0 <= q < k + 1 && marker_pane(mv[q]) == Some(x);
                            if q == k {
                                assert(x == p@);
                            }
                        }
                    }
                }
            },
            None => {
                assert(mv[k as int] == (markers@[k as int].0@, markers@[k as int].1@));
                assert forall|x: Seq<char>|
                    #[trigger] string_views(r@).contains(x) == (lv.contains(x) && exists|q: int|
                        0 <= q < k + 1 && marker_pane(mv[q]) == Some(x)) by {
                    if lv.contains(x) && exists|q: int| 0 <= q < k + 1 && marker_pane(mv[q]) == Some(x) {
                        let q = choose|q: int| 0 <= q < k + 1 && marker_pane(mv[q]) == Some(x);
                        assert(q < k);
                    }
                }
            },
        }
        k += 1;
    }
    r
}

/// The marker files naming panes that are gone, for the caller to delete.
pub fn stale_ready_markers(markers: &Vec<(String, String)>, live: &Vec<String>) -> (r: Vec<String>)
    ensures
        string_views(r@) == stale_markers(file_views(markers@), string_views(live@)),
{
    let ghost mv = file_views(markers@);
    let mut r: Vec<String> = Vec::new();
    let mut k: usize = 0;
    assert(mv.take(0) =~= Seq::<(Seq<char>, Seq<char>)>::empty());
    while k < markers.len()
        invariant
            k <= markers.len(),
            mv == file_views(markers@),
            string_views(r@) == stale_markers(mv.take(k as int), string_views(live@)),
        decreases markers.len() - k,
    {
        let ghost before = string_views(r@);
        proof {
            let t = mv.take(k as int + 1);
            assert(t.drop_last() =~= mv.take(k as int));
            assert(t.last() == mv[k as int]);
        }
        match marker_pane_of(&markers[k].0, &markers[k].1) {
            Some(p) => {
                if !string_list_contains(live.as_slice(), &p) {
                    r.push(markers[k].0.clone());
                    assert(string_views(r@) =~= before.push(mv[k as int].0));
                } else {
                    assert(string_views(r@) =~= before + Seq::<Seq<char>>::empty());
                }
            },
            None => {
                assert(string_views(r@) =~= before + Seq::<Seq<char>>::empty());
            },
        }
        k += 1;
    }
    assert(mv.take(markers.len() as int) =~= mv);
    r
}

/// The description record of a window: `<session id without $>-<index>.json`.
pub open spec fn description_file(session_id: Seq<char>, index: Seq<char>) -> Seq<char> {
    trim_start_char(session_id, '$') + "-"@ + index + ".json"@
}

/// The cached description of a window, or empty.
pub open spec fn description_spec(files: Seq<(Seq<char>, Seq<char>)>, session_id: Seq<char>, index: Seq<char>) -> Seq<char> {
    match file_text(files, description_file(session_id, index)) {
        Some(t) => match string_field_spec(t, "description"@) {
            Some(d) => d,
            None => seq![],
        },
        None => seq![],
    }
}

/// The file name of a window's description record.
pub fn description_file_name(session_id: &str, win_index: &str) -> (r: String)
    ensures
        r@ == description_file(session_id@, win_index@),
{
    let mut name = session_number(session_id);
    push_str(&mut name, "-");
    push_str(&mut name, win_index);
    push_str(&mut name, ".json");
    assert(name@ =~= description_file(session_id@, win_index@));
    name
}

/// The cached description of a window, or empty.
pub fn description_for_window(files: &Vec<(String, String)>, session_id: &str, win_index: &str) -> (r: String)
    ensures
        r@ == description_spec(file_views(files@), session_id@, win_index@),
{
    let name = description_file_name(session_id, win_index);
    match find_file(files, &name) {
        Some(text) => match json_string_field(text.as_str(), "description") {
            Some(d) => d,
            None => String::new(),
        },
        None => String::new(),
    }
}

/// The PR record of a pane: `<pane id without %>.json`.
pub open spec fn pr_file(pane: Seq<char>) -> Seq<char> {
    trim_start_char(pane, '%') + ".json"@
}

pub open spec fn text_or_empty(v: Option<Seq<char>>) -> Seq<char> {
    match v {
        Some(s) => s,
        None => seq![],
    }
}

/// `pr` holds what the PR record `t` says; the state falls back on the
/// draft flag when no display state is cached.
pub open spec fn pr_matches(pr: PullRequestStatus, t: Seq<char>) -> bool {
    let draft = match bool_field_spec(t, "draft"@) {
        Some(b) => b,
        None => false,
    };
    &&& pr.draft == draft
    &&& pr.state == match string_field_spec(t, "displayState"@) {
        Some(s) => pr_state_from_cache(s),
        None => if draft {
            PrState::Draft
        } else {
            PrState::Open
        },
    }
    &&& pr.number == match u64_field_spec(t, "number"@) {
        Some(n) => n,
        None => 0,
    }
    &&& pr.title@ == text_or_empty(string_field_spec(t, "title"@))
    &&& pr.url@ == text_or_empty(string_field_spec(t, "url"@))
}

/// The cached PR of a pane: present exactly when its record is.
pub open spec fn pr_for_spec(r: Option<PullRequestStatus>, files: Seq<(Seq<char>, Seq<char>)>, pane: Seq<char>) -> bool {
    match file_text(files, pr_file(pane)) {
        Some(t) => r is Some && pr_matches(r->0, t),
        None => r is None,
    }
}

fn field_or_empty(text: &String, key: &str) -> (r: String)
    ensures
        r@ == text_or_empty(string_field_spec(text@, key@)),
{
    match json_string_field(text.as_str(), key) {
        Some(s) => s,
        None => String::new(),
    }
}

/// The cached PR status of a pane, if any.
pub fn pr_for_pane(files: &Vec<(String, String)>, pane: &str) -> (r: Option<PullRequestStatus>)
    ensures
        pr_for_spec(r, file_views(files@), pane@),
{
    let v = chars_of(pane);
    let (a, _b) = trim_char_bounds(&v, 0, v.len(), '%');
    assert(v@.subrange(0, v@.len() as int) =~= v@);
    let mut name = crate::text::string_of_range(&v, a, v.len());
    push_str(&mut name, ".json");
    assert(name@ =~= pr_file(pane@));
    let text = match find_file(files, &name) {
        Some(t) => t,
        None => return None,
    };
    let draft = match json_bool_field(text.as_str(), "draft") {
        Some(b) => b,
        None => false,
    };
    let state = match json_string_field(text.as_str(), "displayState") {
        Some(s) => PrState::from_cache(s.as_str()),
        None => if draft {
            PrState::Draft
        } else {
            PrState::Open
        },
    };
    let number = match json_u64_field(text.as_str(), "number") {
        Some(n) => n,
        None => 0,
    };
    Some(
        PullRequestStatus {
            number,
            title: field_or_empty(text, "title"),
            url: field_or_empty(text, "url"),
            draft,
            state,
        },
    )
}

// ---------------------------------------------------------------------------
// The window list
// ---------------------------------------------------------------------------

/// The format `tmux_windows` asks `list-windows` for.
pub const WINDOW_FORMAT: &'static str = "#{window_index}|#{window_id}|#{@tmux-tabs-tab-id}|#{window_name}|#{window_bell_flag}|#{window_flags}|#{pane_title}|#{pane_current_path}";

/// The fields of each `list-windows` line that has all eight of them.
pub open spec fn window_fields_of(lines: Seq<Seq<char>>) -> Seq<Seq<Seq<char>>>
    decreases lines.len(),
{
    if lines.len() == 0 {
        seq![]
    } else {
        window_fields_of(lines.drop_last()) + (if splitn_char(lines.last(), '|', 8).len() >= 8 {
            seq![splitn_char(lines.last(), '|', 8)]
        } else {
            seq![]
        })
    }
}

pub open spec fn listing_spec(out: Seq<char>) -> Seq<Seq<Seq<char>>> {
    window_fields_of(lines_of(out))
}

/// `list-windows -F WINDOW_FORMAT`: the current session's windows.
pub open spec fn list_windows_command_spec() -> Seq<Seq<char>> {
    seq!["list-windows"@, "-F"@, WINDOW_FORMAT@]
}

/// The command that lists the current session's windows.
pub fn list_windows_command() -> (r: Vec<String>)
    ensures
        string_views(r@) == list_windows_command_spec(),
{
    let r = vec![word("list-windows"), word("-F"), word(WINDOW_FORMAT)];
    assert(string_views(r@) =~= list_windows_command_spec());
    r
}

/// The content panes recorded for window `index`.
pub open spec fn panes_of(m: Seq<(Seq<char>, Seq<Seq<char>>)>, index: Seq<char>) -> Seq<Seq<char>> {
    match key_index(m, index) {
        Some(i) => m[i].1,
        None => seq![],
    }
}

/// A window is ready when one of its content panes is.
pub open spec fn window_is_ready(
    m: Seq<(Seq<char>, Seq<Seq<char>>)>,
    markers: Seq<(Seq<char>, Seq<char>)>,
    index: Seq<char>,
) -> bool {
    exists|j: int|
        0 <= j < panes_of(m, index).len() && is_ready_pane(markers, all_ids(m), panes_of(m, index)[j])
}

/// The representative pane's path, unless it is empty.
pub open spec fn shown_path(rep: Option<PaneView>, fallback: Seq<char>) -> Seq<char> {
    match rep {
        Some(p) => if p.path.len() > 0 {
            p.path
        } else {
            fallback
        },
        None => fallback,
    }
}

/// The representative pane's title, unless it is empty.
pub open spec fn shown_title(rep: Option<PaneView>, fallback: Seq<char>) -> Seq<char> {
    match rep {
        Some(p) => if p.title.len() > 0 {
            p.title
        } else {
            fallback
        },
        None => fallback,
    }
}

/// `w` is the window described by the `list-windows` fields `f`
/// (`index|id|tab id|name|bell|flags|title|path`), its pane records, the
/// session's pane map and the cached files.
pub open spec fn window_built(
    w: Window,
    f: Seq<Seq<char>>,
    recs: Seq<PaneView>,
    m: Seq<(Seq<char>, Seq<Seq<char>>)>,
    markers: Seq<(Seq<char>, Seq<char>)>,
    descs: Seq<(Seq<char>, Seq<char>)>,
    prs: Seq<(Seq<char>, Seq<char>)>,
    session_id: Seq<char>,
    home: Seq<char>,
    cwd: Seq<char>,
) -> bool {
    let rep = representative_spec(recs, home);
    let path = shown_path(rep, f[7]);
    let command = match rep {
        Some(p) => p.command,
        None => seq![],
    };
    let pane = match rep {
        Some(p) => p.id,
        None => seq![],
    };
    let bell = f[4] == "1"@;
    &&& w.index@ == f[0]
    &&& w.window_id@ == f[1]
    &&& w.tab_id@ == f[2]
    &&& w.name@ == display_name_spec(f[3], command, path)
    &&& w.bell == bell
    &&& w.ready == (bell || window_is_ready(m, markers, f[0]))
    &&& w.active == f[5].contains('*')
    &&& w.last == f[5].contains('-')
    &&& w.title@ == shown_title(rep, f[6])
    &&& w.path@ == path
    &&& w.group@ == project_group_spec(path, home, cwd)
    &&& w.pane@ == pane
    &&& w.command@ == command
    &&& string_views(w.panes@) == panes_of(m, f[0])
    &&& w.description@ == description_spec(descs, session_id, f[0])
    &&& match rep {
        Some(p) => pr_for_spec(w.pr, prs, p.id),
        None => w.pr is None,
    }
}

/// The windows `ws` are those the listing's lines describe, in order, each
/// with the pane records read from `outs`.
pub open spec fn windows_match(
    ws: Seq<Window>,
    m: Seq<(Seq<char>, Seq<Seq<char>>)>,
    session_id: Seq<char>,
    fields: Seq<Seq<Seq<char>>>,
    outs: Seq<Seq<char>>,
    cache: (Seq<(Seq<char>, Seq<char>)>, Seq<(Seq<char>, Seq<char>)>, Seq<(Seq<char>, Seq<char>)>),
    home: Seq<char>,
    cwd: Seq<char>,
) -> bool {
    &&& ws.len() == fields.len()
    &&& outs.len() == fields.len()
    &&& forall|k: int|
        0 <= k < fields.len() ==> window_built(
            #[trigger] ws[k],
            fields[k],
            pane_records_spec(outs[k]),
            m,
            cache.0,
            cache.1,
            cache.2,
            session_id,
            home,
            cwd,
        )
}

/// A listed window is ready exactly when tmux raised its bell flag or one
/// of its content panes is live and named by an agent-ready marker: a
/// marker on a live pane makes the window ready with its bell flag clear.
pub proof fn lemma_window_ready_from_markers(
    ws: Seq<Window>,
    m: Seq<(Seq<char>, Seq<Seq<char>>)>,
    session_id: Seq<char>,
    fields: Seq<Seq<Seq<char>>>,
    outs: Seq<Seq<char>>,
    cache: (Seq<(Seq<char>, Seq<char>)>, Seq<(Seq<char>, Seq<char>)>, Seq<(Seq<char>, Seq<char>)>),
    home: Seq<char>,
    cwd: Seq<char>,
    k: int,
)
    requires
        windows_match(ws, m, session_id, fields, outs, cache, home, cwd),
        0 <= k < fields.len(),
    ensures
        ws[k].bell == (fields[k][4] == "1"@),
        ws[k].ready == (fields[k][4] == "1"@ || exists|p: Seq<char>, i: int|
            #![trigger panes_of(m, fields[k][0]).contains(p), cache.0[i]]
            panes_of(m, fields[k][0]).contains(p) && all_ids(m).contains(p) && 0 <= i < cache.0.len()
                && marker_pane(cache.0[i]) == Some(p)),
{
    let f = fields[k];
    let ps = panes_of(m, f[0]);
    let markers = cache.0;
    assert(window_built(ws[k], f, pane_records_spec(outs[k]), m, markers, cache.1, cache.2, session_id, home, cwd));
    let marked = exists|p: Seq<char>, i: int|
        #![trigger ps.contains(p), markers[i]]
        ps.contains(p) && all_ids(m).contains(p) && 0 <= i < markers.len() && marker_pane(markers[i]) == Some(p);
    if window_is_ready(m, markers, f[0]) {
        let j = choose|j: int| 0 <= j < ps.len() && is_ready_pane(markers, all_ids(m), ps[j]);
        let p = ps[j];
        let i = choose|i: int| 0 <= i < markers.len() && marker_pane(markers[i]) == Some(p);
        assert(ps.contains(p));
        assert(marked);
    }
    if marked {
        let (p, i) = choose|p: Seq<char>, i: int|
            #![trigger ps.contains(p), markers[i]]
            ps.contains(p) && all_ids(m).contains(p) && 0 <= i < markers.len() && marker_pane(markers[i]) == Some(p);
        let j = choose|j: int| 0 <= j < ps.len() && ps[j] == p;
        assert(is_ready_pane(markers, all_ids(m), ps[j]));
        assert(window_is_ready(m, markers, f[0]));
    }
}

/// A listed window carries the index and ids of its `list-windows` line,
/// is active when the line's flags hold `*` and the last window when they
/// hold `-`, and lists the content panes the pane map records for its
/// index.
pub proof fn lemma_window_fields_from_listing(
    ws: Seq<Window>,
    m: Seq<(Seq<char>, Seq<Seq<char>>)>,
    session_id: Seq<char>,
    fields: Seq<Seq<Seq<char>>>,
    outs: Seq<Seq<char>>,
    cache: (Seq<(Seq<char>, Seq<char>)>, Seq<(Seq<char>, Seq<char>)>, Seq<(Seq<char>, Seq<char>)>),
    home: Seq<char>,
    cwd: Seq<char>,
    k: int,
)
    requires
        windows_match(ws, m, session_id, fields, outs, cache, home, cwd),
        0 <= k < fields.len(),
    ensures
        ws[k].index@ == fields[k][0],
        ws[k].window_id@ == fields[k][1],
        ws[k].tab_id@ == fields[k][2],
        ws[k].active == fields[k][5].contains('*'),
        ws[k].last == fields[k][5].contains('-'),
        string_views(ws[k].panes@) == panes_of(m, fields[k][0]),
{
    let f = fields[k];
    assert(window_built(ws[k], f, pane_records_spec(outs[k]), m, cache.0, cache.1, cache.2, session_id, home, cwd));
}

pub open spec fn cache_views(c: CacheFiles) -> (
    Seq<(Seq<char>, Seq<char>)>,
    Seq<(Seq<char>, Seq<char>)>,
    Seq<(Seq<char>, Seq<char>)>,
) {
    (file_views(c.ready_markers@), file_views(c.descriptions@), file_views(c.pr_status@))
}

fn window_ready(m: &Vec<(String, Vec<String>)>, ready: &Vec<String>, index: &String, Ghost(markers): Ghost<Seq<(Seq<char>, Seq<char>)>>) -> (r: bool)
    requires
        forall|p: Seq<char>|
            #[trigger] string_views(ready@).contains(p) == is_ready_pane(markers, all_ids(map_views(m@)), p),
    ensures
        r == window_is_ready(map_views(m@), markers, index@),
{
    let ghost mv = map_views(m@);
    match map_key_index(m, index) {
        Some(i) => {
            let ids = &m[i].1;
            let ghost pv = panes_of(mv, index@);
            assert(pv == string_views(ids@));
            let mut j: usize = 0;
            while j < ids.len()
                invariant
                    j <= ids.len(),
                    pv == string_views(ids@),
                    pv == panes_of(mv, index@),
                    mv == map_views(m@),
                    forall|p: Seq<char>|
                        #[trigger] string_views(ready@).contains(p) == is_ready_pane(markers, all_ids(mv), p),
                    forall|q: int| 0 <= q < j ==> !is_ready_pane(markers, all_ids(mv), #[trigger] pv[q]),
                decreases ids.len() - j,
            {
                if string_list_contains(ready.as_slice(), &ids[j]) {
                    assert(pv[j as int] == ids@[j as int]@);
                    assert(is_ready_pane(markers, all_ids(mv), pv[j as int]));
                    assert(0 <= j < panes_of(mv, index@).len());
                    return true;
                }
                assert(pv[j as int] == ids@[j as int]@);
                j += 1;
            }
            false
        },
        None => false,
    }
}

fn build_window(
    f: &Vec<Vec<char>>,
    recs: &Vec<PaneRecord>,
    m: &Vec<(String, Vec<String>)>,
    ready: &Vec<String>,
    session_id: &str,
    home: &str,
    cwd: &str,
    cache: &CacheFiles,
) -> (w: Window)
    requires
        f.len() >= 8,
        forall|p: Seq<char>|
            #[trigger] string_views(ready@).contains(p) == is_ready_pane(
                file_views(cache.ready_markers@),
                all_ids(map_views(m@)),
                p,
            ),
    ensures
        window_built(
            w,
            f@.map_values(|p: Vec<char>| p@),
            pane_views(recs@),
            map_views(m@),
            file_views(cache.ready_markers@),
            file_views(cache.descriptions@),
            file_views(cache.pr_status@),
            session_id@,
            home@,
            cwd@,
        ),
{
    let ghost fv = f@.map_values(|p: Vec<char>| p@);
    let index = string_of(f[0].as_slice());
    let rep = representative_pane(recs.as_slice(), home);
    let (path, title, command, pane) = match rep {
        Some(p) => {
            let path = if p.path.as_str().is_empty() {
                string_of(f[7].as_slice())
            } else {
                p.path.clone()
            };
            let title = if p.title.as_str().is_empty() {
                string_of(f[6].as_slice())
            } else {
                p.title.clone()
            };
            (path, title, p.command.clone(), p.id.clone())
        },
        None => (string_of(f[7].as_slice()), string_of(f[6].as_slice()), String::new(), String::new()),
    };
    let bell = chars_eq(f[4].as_slice(), chars_of("1").as_slice());
    let ready_flag = bell || window_ready(m, ready, &index, Ghost(file_views(cache.ready_markers@)));
    let panes = match map_key_index(m, &index) {
        Some(i) => clone_strings(&m[i].1),
        None => Vec::new(),
    };
    let description = description_for_window(&cache.descriptions, session_id, index.as_str());
    let pr = match rep {
        Some(p) => pr_for_pane(&cache.pr_status, p.id.as_str()),
        None => None,
    };
    let tmux_name = string_of(f[3].as_slice());
    let name = window_display_name(tmux_name.as_str(), command.as_str(), path.as_str());
    let group = project_group(path.as_str(), home, cwd);
    let active = has_char(f[5].as_slice(), '*');
    let last = has_char(f[5].as_slice(), '-');
    let w = Window {
        index,
        window_id: string_of(f[1].as_slice()),
        tab_id: string_of(f[2].as_slice()),
        name,
        bell,
        ready: ready_flag,
        active,
        last,
        title,
        path,
        group,
        pane,
        panes,
        command,
        description,
        pr,
    };
    assert(string_views(w.panes@) == panes_of(map_views(m@), fv[0]));
    w
}

/// The index field of each window a `list-windows` reply lists.
pub open spec fn listed_indexes_spec(listing: Seq<char>) -> Seq<Seq<char>> {
    listing_spec(listing).map_values(|f: Seq<Seq<char>>| f[0])
}

proof fn lemma_fields_grow(lines: Seq<Seq<char>>, j: int, n: int)
    requires
        0 <= j <= n <= lines.len(),
    ensures
        window_fields_of(lines.take(j)).len() <= window_fields_of(lines.take(n)).len(),
    decreases n - j,
{
    if j < n {
        lemma_fields_grow(lines, j, n - 1);
        assert(lines.take(n).drop_last() =~= lines.take(n - 1));
    }
}

/// The index of every window a `list-windows` reply lists, in order: the
/// windows whose pane listings `windows_from_listing` needs.
pub fn listed_window_indexes(listing: &str) -> (r: Vec<String>)
    ensures
        string_views(r@) == listed_indexes_spec(listing@),
{
    let v = chars_of(listing);
    let bounds = line_bounds(v.as_slice());
    let ghost lines = lines_of(v@);
    let mut r: Vec<String> = Vec::new();
    let mut k: usize = 0;
    assert(lines.take(0) =~= Seq::<Seq<char>>::empty());
    while k < bounds.len()
        invariant
            k <= bounds.len(),
            lines == lines_of(v@),
            v@ == listing@,
            bounds@.len() == lines.len(),
            forall|q: int|
                0 <= q < bounds@.len() ==> {
                    &&& (#[trigger] bounds@[q]).0 <= bounds@[q].1 <= v@.len()
                    &&& v@.subrange(bounds@[q].0 as int, bounds@[q].1 as int) == lines[q]
                },
            string_views(r@) == window_fields_of(lines.take(k as int)).map_values(
                |f: Seq<Seq<char>>| f[0],
            ),
        decreases bounds.len() - k,
    {
        let (a, b) = bounds[k];
        let line = sub_vec(v.as_slice(), a, b);
        let parts = splitn_pieces(line.as_slice(), '|', 8);
        let ghost done = window_fields_of(lines.take(k as int));
        let ghost before = string_views(r@);
        proof {
            let t = lines.take(k as int + 1);
            assert(t.drop_last() =~= lines.take(k as int));
            assert(t.last() == line@);
        }
        if parts.len() >= 8 {
            let index = string_of(parts[0].as_slice());
            r.push(index);
            proof {
                let fv = parts@.map_values(|p: Vec<char>| p@);
                assert(splitn_char(line@, '|', 8) == fv);
                assert(window_fields_of(lines.take(k as int + 1)) =~= done.push(fv));
                assert(string_views(r@) =~= before.push(fv[0]));
                assert(done.push(fv).map_values(|f: Seq<Seq<char>>| f[0]) =~= done.map_values(
                    |f: Seq<Seq<char>>| f[0],
                ).push(fv[0]));
            }
        } else {
            proof {
                let fv = parts@.map_values(|p: Vec<char>| p@);
                assert(splitn_char(line@, '|', 8) == fv);
                assert(window_fields_of(lines.take(k as int + 1)) =~= done);
            }
        }
        k += 1;
    }
    assert(lines.take(bounds.len() as int) =~= lines);
    r
}

/// Builds the window list from tmux's replies: every `list-windows` line
/// with its eight fields becomes a window, enriched from its pane listing
/// (`pane_outs`, one per listed window, in order), the session's pane map,
/// the agent-ready markers, and the cached descriptions and PR records.
pub fn windows_from_listing(
    listing: &str,
    pane_map: &Vec<(String, Vec<String>)>,
    session_id: &str,
    pane_outs: &Vec<String>,
    cache: &CacheFiles,
    home: &str,
    cwd: &str,
) -> (r: Vec<Window>)
    requires
        pane_outs@.len() == listing_spec(listing@).len(),
    ensures
        windows_match(
            r@,
            map_views(pane_map@),
            session_id@,
            listing_spec(listing@),
            string_views(pane_outs@),
            cache_views(*cache),
            home@,
            cwd@,
        ),
{
    let live = live_pane_ids(pane_map);
    let ready = ready_panes(&cache.ready_markers, &live);
    let v = chars_of(listing);
    let bounds = line_bounds(v.as_slice());
    let ghost lines = lines_of(v@);
    let ghost mv = map_views(pane_map@);
    let ghost cv = cache_views(*cache);
    let ghost ov = string_views(pane_outs@);
    let mut windows: Vec<Window> = Vec::new();
    let mut k: usize = 0;
    assert(lines.take(0) =~= Seq::<Seq<char>>::empty());
    assert(ov.take(0) =~= Seq::<Seq<char>>::empty());
    while k < bounds.len()
        invariant
            k <= bounds.len(),
            lines == lines_of(v@),
            v@ == listing@,
            bounds@.len() == lines.len(),
            forall|q: int|
                0 <= q < bounds@.len() ==> {
                    &&& (#[trigger] bounds@[q]).0 <= bounds@[q].1 <= v@.len()
                    &&& v@.subrange(bounds@[q].0 as int, bounds@[q].1 as int) == lines[q]
                },
            mv == map_views(pane_map@),
            cv == cache_views(*cache),
            ov == string_views(pane_outs@),
            ov.len() == window_fields_of(lines).len(),
            forall|p: Seq<char>|
                #[trigger] string_views(ready@).contains(p) == is_ready_pane(
                    file_views(cache.ready_markers@),
                    all_ids(mv),
                    p,
                ),
            windows_match(
                windows@,
                mv,
                session_id@,
                window_fields_of(lines.take(k as int)),
                ov.take(windows@.len() as int),
                cv,
                home@,
                cwd@,
            ),
        decreases bounds.len() - k,
    {
        let (a, b) = bounds[k];
        let line = sub_vec(v.as_slice(), a, b);
        let parts = splitn_pieces(line.as_slice(), '|', 8);
        let ghost done = window_fields_of(lines.take(k as int));
        proof {
            let t = lines.take(k as int + 1);
            assert(t.drop_last() =~= lines.take(k as int));
            assert(t.last() == line@);
        }
        if parts.len() >= 8 {
            let j = windows.len();
            proof {
                let fv = parts@.map_values(|p: Vec<char>| p@);
                assert(splitn_char(line@, '|', 8) == fv);
                assert(window_fields_of(lines.take(k as int + 1)) =~= done.push(fv));
                lemma_fields_grow(lines, k as int + 1, lines.len() as int);
                assert(lines.take(lines.len() as int) =~= lines);
            }
            let recs = parse_pane_records(pane_outs[j].as_str());
            let w = build_window(&parts, &recs, pane_map, &ready, session_id, home, cwd, cache);
            let ghost wv = w;
            let ghost prev_w = windows@;
            windows.push(w);
            proof {
                let fv = parts@.map_values(|p: Vec<char>| p@);
                let nf = done.push(fv);
                let outs = ov.take(windows@.len() as int);
                let prev_o = ov.take(prev_w.len() as int);
                assert(ov[j as int] == pane_outs@[j as int]@);
                assert(windows@ =~= prev_w.push(wv));
                assert forall|q: int| 0 <= q < nf.len() implies window_built(
                    #[trigger] windows@[q],
                    nf[q],
                    pane_records_spec(outs[q]),
                    mv,
                    cv.0,
                    cv.1,
                    cv.2,
                    session_id@,
                    home@,
                    cwd@,
                ) by {
                    if q < done.len() {
                        assert(windows@[q] == prev_w[q]);
                        assert(outs[q] == prev_o[q]);
                        assert(nf[q] == done[q]);
                    } else {
                        assert(windows@[q] == wv);
                        assert(outs[q] == ov[j as int]);
                        assert(nf[q] == fv);
                    }
                }
            }
        } else {
            proof {
                let fv = parts@.map_values(|p: Vec<char>| p@);
                assert(splitn_char(line@, '|', 8) == fv);
                assert(window_fields_of(lines.take(k as int + 1)) =~= done);
            }
        }
        k += 1;
    }
    assert(lines.take(bounds.len() as int) =~= lines);
    assert(ov.take(windows@.len() as int) =~= ov);
    windows
}

/// Builds the full window list of the current session: the session's pane
/// map (`session_panes_command`), the session id, the window listing
/// (`list_windows_command`) and each listed window's panes
/// (`list_panes_command`), put together by `windows_from_listing`.
pub fn tmux_windows<T: Tmux>(t: &T, ctx: &Ctx, cache: &CacheFiles) -> (r: Vec<Window>)
    ensures
        exists|panes_out: Seq<char>, session_id: Seq<char>, listing: Seq<char>, outs: Seq<Seq<char>>|
            #[trigger] windows_match(
                r@,
                pane_map_spec(panes_out, ctx.home@),
                session_id,
                listing_spec(listing),
                outs,
                cache_views(*cache),
                ctx.home@,
                ctx.cwd@,
            ),
{
    let window_panes = pane_ids_by_window(t, ctx.home.as_str());
    let ghost panes_out = choose|out: Seq<char>|
        #[trigger] pane_map_spec(out, ctx.home@) == map_views(window_panes@);
    let session_id = display(t, "#{session_id}");
    let listing = reply_text(run_words(t, &list_windows_command()));
    let indexes = listed_window_indexes(listing.as_str());
    let mut outs: Vec<String> = Vec::new();
    let mut k: usize = 0;
    while k < indexes.len()
        invariant
            k <= indexes.len(),
            outs@.len() == k,
        decreases indexes.len() - k,
    {
        outs.push(reply_text(run_words(t, &list_panes_command(indexes[k].as_str()))));
        k += 1;
    }
    proof {
        assert(string_views(indexes@).len() == indexes@.len());
    }
    let r = windows_from_listing(
        listing.as_str(),
        &window_panes,
        session_id.as_str(),
        &outs,
        cache,
        ctx.home.as_str(),
        ctx.cwd.as_str(),
    );
    assert(windows_match(
        r@,
        pane_map_spec(panes_out, ctx.home@),
        session_id@,
        listing_spec(listing@),
        string_views(outs@),
        cache_views(*cache),
        ctx.home@,
        ctx.cwd@,
    ));
    r
}

} // verus!
