//! Pure data model and layout logic for the tmux sidebar.
//!
//! Everything in this module is free of I/O; the runtime feeds these
//! functions real data and renders or acts on their output.
use vstd::prelude::*;

use crate::sections::{string_views, SectionLayout, SectionView};
use crate::text::{
    chars_eq, chars_of, ends_with, ends_with_chars, is_whitespace, lemma_split_char_none,
    lemma_split_char_unfold, lowercase, push_char, split_bounds, split_char, starts_with,
    string_of, string_of_range, sub_vec, to_lowercase, trim_bounds, trim_char_bounds, trim_end_ws,
    trim_start_char, trim_ws, word_bounds, words,
};

verus! {

#[derive(Debug, Clone, Copy, PartialEq, Eq, Structural)]
pub enum PrState {
    Draft,
    CiRunning,
    CiFailed,
    Changes,
    Ready,
    Merged,
    Closed,
    Open,
}

impl Default for PrState {
    fn default() -> (r: PrState)
        ensures
            r == PrState::Open,
    {
        PrState::Open
    }
}

/// The compact text shown for each state.
pub open spec fn pr_label(s: PrState) -> Seq<char> {
    match s {
        PrState::Draft => "draft"@,
        PrState::CiRunning => "CI…"@,
        PrState::CiFailed => "failed"@,
        PrState::Changes => "changes"@,
        PrState::Ready => "ready"@,
        PrState::Merged => "merged"@,
        PrState::Closed => "closed"@,
        PrState::Open => "open"@,
    }
}

/// The state named by a cached `displayState` value; unknown values read as
/// `Open`.
pub open spec fn pr_state_from_cache(v: Seq<char>) -> PrState {
    if v == "draft"@ {
        PrState::Draft
    } else if v == "ci_running"@ {
        PrState::CiRunning
    } else if v == "ci_failed"@ {
        PrState::CiFailed
    } else if v == "changes"@ {
        PrState::Changes
    } else if v == "ready"@ {
        PrState::Ready
    } else if v == "merged"@ {
        PrState::Merged
    } else if v == "closed"@ {
        PrState::Closed
    } else {
        PrState::Open
    }
}

impl PrState {
    pub fn label(self) -> (r: &'static str)
        ensures
            r@ == pr_label(self),
    {
        match self {
            PrState::Draft => "draft",
            PrState::CiRunning => "CI…",
            PrState::CiFailed => "failed",
            PrState::Changes => "changes",
            PrState::Ready => "ready",
            PrState::Merged => "merged",
            PrState::Closed => "closed",
            PrState::Open => "open",
        }
    }

    pub fn from_cache(value: &str) -> (r: PrState)
        ensures
            r == pr_state_from_cache(value@),
    {
        let v = chars_of(value);
        if chars_eq(&v, &chars_of("draft")) {
            PrState::Draft
        } else if chars_eq(&v, &chars_of("ci_running")) {
            PrState::CiRunning
        } else if chars_eq(&v, &chars_of("ci_failed")) {
            PrState::CiFailed
        } else if chars_eq(&v, &chars_of("changes")) {
            PrState::Changes
        } else if chars_eq(&v, &chars_of("ready")) {
            PrState::Ready
        } else if chars_eq(&v, &chars_of("merged")) {
            PrState::Merged
        } else if chars_eq(&v, &chars_of("closed")) {
            PrState::Closed
        } else {
            PrState::Open
        }
    }
}

/// The pull request cached for a window's pane.
#[derive(Debug, Clone, PartialEq, Eq)]
pub struct PullRequestStatus {
    pub number: u64,
    pub title: String,
    pub url: String,
    pub draft: bool,
    pub state: PrState,
}

impl Default for PullRequestStatus {
    fn default() -> (r: PullRequestStatus)
        ensures
            r.number == 0,
            r.title@ == Seq::<char>::empty(),
            r.url@ == Seq::<char>::empty(),
            !r.draft,
            r.state == PrState::Open,
    {
        PullRequestStatus {
            number: 0,
            title: String::new(),
            url: String::new(),
            draft: false,
            state: PrState::Open,
        }
    }
}

/// A single tmux window as shown in the sidebar.
#[derive(Debug, Clone, PartialEq, Eq)]
pub struct Window {
    pub index: String,
    pub window_id: String,
    pub tab_id: String,
    pub name: String,
    pub bell: bool,
    pub ready: bool,
    pub active: bool,
    pub last: bool,
    pub title: String,
    pub path: String,
    pub group: String,
    pub pane: String,
    pub panes: Vec<String>,
    pub command: String,
    pub description: String,
    pub pr: Option<PullRequestStatus>,
}

impl Default for Window {
    fn default() -> (r: Window)
        ensures
            r.index@ == Seq::<char>::empty(),
            r.window_id@ == Seq::<char>::empty(),
            r.tab_id@ == Seq::<char>::empty(),
            r.name@ == Seq::<char>::empty(),
            !r.bell,
            !r.ready,
            !r.active,
            !r.last,
            r.title@ == Seq::<char>::empty(),
            r.path@ == Seq::<char>::empty(),
            r.group@ == Seq::<char>::empty(),
            r.pane@ == Seq::<char>::empty(),
            r.panes@ == Seq::<String>::empty(),
            r.command@ == Seq::<char>::empty(),
            r.description@ == Seq::<char>::empty(),
            r.pr is None,
    {
        Window {
            index: String::new(),
            window_id: String::new(),
            tab_id: String::new(),
            name: String::new(),
            bell: false,
            ready: false,
            active: false,
            last: false,
            title: String::new(),
            path: String::new(),
            group: String::new(),
            pane: String::new(),
            panes: Vec::new(),
            command: String::new(),
            description: String::new(),
            pr: None,
        }
    }
}

pub const ICON_READY: &'static str = "🔔 ";

pub const ICON_EMPTY: &'static str = "   ";

pub const DETAIL_INDENT: &'static str = "   ";

pub const DETAIL_MIN: usize = 8;

/// Sidebar width when `@tmux-tabs-width` is unset. The sidebar is a fixed
/// width; it never grows or shrinks with content or host window size.
pub const DEFAULT_WIDTH: usize = 32;

// ---------------------------------------------------------------------------
// Paths
// ---------------------------------------------------------------------------

pub open spec fn is_abs(s: Seq<char>) -> bool {
    s.len() > 0 && s[0] == '/'
}

/// `Path::join`: an absolute `b` replaces `a`; otherwise `b` is appended
/// after a separator unless `a` is empty or already ends with one.
pub open spec fn path_join(a: Seq<char>, b: Seq<char>) -> Seq<char> {
    if is_abs(b) {
        b
    } else if a.len() == 0 || a.last() == '/' {
        a + b
    } else {
        a + seq!['/'] + b
    }
}

/// The path with a leading `~` expanded and an empty path read as `cwd`.
pub open spec fn expand_home(input: Seq<char>, home: Seq<char>, cwd: Seq<char>) -> Seq<char> {
    if input == seq!['~'] {
        home
    } else if starts_with(input, seq!['~', '/']) {
        path_join(home, input.skip(2))
    } else if input.len() == 0 {
        cwd
    } else {
        input
    }
}

/// The expanded path, made absolute relative to `cwd`.
pub open spec fn absolute_path(input: Seq<char>, home: Seq<char>, cwd: Seq<char>) -> Seq<char> {
    let e = expand_home(input, home, cwd);
    if is_abs(e) {
        e
    } else {
        path_join(cwd, e)
    }
}

/// One step of lexical normalisation: empty and `.` pieces vanish, `..`
/// drops the last kept piece, anything else is kept.
pub open spec fn resolve_step(acc: Seq<Seq<char>>, p: Seq<char>) -> Seq<Seq<char>> {
    if p.len() == 0 || p == seq!['.'] {
        acc
    } else if p == seq!['.', '.'] {
        if acc.len() > 0 {
            acc.drop_last()
        } else {
            acc
        }
    } else {
        acc.push(p)
    }
}

pub open spec fn resolve(pieces: Seq<Seq<char>>) -> Seq<Seq<char>>
    decreases pieces.len(),
{
    if pieces.len() == 0 {
        seq![]
    } else {
        resolve_step(resolve(pieces.drop_last()), pieces.last())
    }
}

/// The components of the normalised path, root aside.
pub open spec fn normal_parts(input: Seq<char>, home: Seq<char>, cwd: Seq<char>) -> Seq<Seq<char>> {
    resolve(split_char(absolute_path(input, home, cwd), '/'))
}

/// Pieces joined with `/`.
pub open spec fn join_slash(parts: Seq<Seq<char>>) -> Seq<char>
    decreases parts.len(),
{
    if parts.len() == 0 {
        seq![]
    } else if parts.len() == 1 {
        parts[0]
    } else {
        join_slash(parts.drop_last()) + seq!['/'] + parts.last()
    }
}

/// The text of a normalised path.
pub open spec fn render_path(abs: bool, parts: Seq<Seq<char>>) -> Seq<char> {
    (if abs {
        seq!['/']
    } else {
        seq![]
    }) + join_slash(parts)
}

pub open spec fn normalize_path_spec(input: Seq<char>, home: Seq<char>, cwd: Seq<char>) -> Seq<
    char,
> {
    render_path(is_abs(absolute_path(input, home, cwd)), normal_parts(input, home, cwd))
}

pub open spec fn part_views(v: Seq<Vec<char>>) -> Seq<Seq<char>> {
    v.map_values(|p: Vec<char>| p@)
}

fn path_join_chars(a: &[char], b: &[char]) -> (r: Vec<char>)
    ensures
        r@ == path_join(a@, b@),
{
    let mut r: Vec<char> = Vec::new();
    if b.len() > 0 && b[0] == '/' {
        append_chars(&mut r, b);
        assert(r@ =~= b@);
        return r;
    }
    append_chars(&mut r, a);
    if !(a.len() == 0 || a[a.len() - 1] == '/') {
        r.push('/');
    }
    append_chars(&mut r, b);
    assert(r@ =~= path_join(a@, b@));
    r
}

/// `Path::join` on path text.
pub fn join_path(a: &str, b: &str) -> (r: String)
    ensures
        r@ == path_join(a@, b@),
{
    let v = path_join_chars(&chars_of(a), &chars_of(b));
    string_of(&v)
}

/// Appends all of `b` to `r`.
pub fn append_chars(r: &mut Vec<char>, b: &[char])
    ensures
        final(r)@ == old(r)@ + b@,
{
    let mut i: usize = 0;
    while i < b.len()
        invariant
            i <= b.len(),
            r@ == old(r)@ + b@.take(i as int),
        decreases b.len() - i,
    {
        r.push(b[i]);
        assert(b@.take(i as int + 1) =~= b@.take(i as int).push(b@[i as int]));
        assert(r@ =~= old(r)@ + b@.take(i as int + 1));
        i += 1;
    }
    assert(b@.take(b.len() as int) =~= b@);
}

fn absolute_chars(input: &[char], home: &[char], cwd: &[char]) -> (r: Vec<char>)
    ensures
        r@ == absolute_path(input@, home@, cwd@),
{
    let mut e: Vec<char> = Vec::new();
    if input.len() == 1 && input[0] == '~' {
        append_chars(&mut e, home);
        assert(input@ =~= seq!['~']);
        assert(e@ =~= home@);
    } else if input.len() >= 2 && input[0] == '~' && input[1] == '/' {
        let rest = crate::text::sub_vec(input, 2, input.len());
        assert(rest@ =~= input@.skip(2));
        assert(input@ != seq!['~']);
        assert(starts_with(input@, seq!['~', '/'])) by {
            assert(input@.take(2) =~= seq!['~', '/']);
        }
        e = path_join_chars(home, &rest);
    } else if input.len() == 0 {
        append_chars(&mut e, cwd);
        assert(e@ =~= cwd@);
        assert(input@ != seq!['~']);
    } else {
        append_chars(&mut e, input);
        assert(e@ =~= input@);
        assert(input@ != seq!['~'] ==> true);
        proof {
            if input@ == seq!['~'] {
                assert(input.len() == 1);
            }
            if starts_with(input@, seq!['~', '/']) {
                assert(input@[0] == input@.take(2)[0]);
                assert(input@[1] == input@.take(2)[1]);
            }
        }
    }
    assert(e@ == expand_home(input@, home@, cwd@));
    if e.len() > 0 && e[0] == '/' {
        e
    } else {
        path_join_chars(cwd, &e)
    }
}

/// The normalised components of `v` read as a path.
fn resolve_chars(v: &[char]) -> (r: Vec<Vec<char>>)
    ensures
        part_views(r@) == resolve(split_char(v@, '/')),
{
    let mut stack: Vec<Vec<char>> = Vec::new();
    let mut start: usize = 0;
    let mut i: usize = 0;
    let ghost done: Seq<Seq<char>> = seq![];
    assert(v@.skip(0) =~= v@);
    assert(part_views(stack@) =~= resolve(done));
    while i < v.len()
        invariant
            start <= i <= v.len(),
            split_char(v@, '/') == done + split_char(v@.skip(start as int), '/'),
            part_views(stack@) == resolve(done),
            forall|q: int| start <= q < i ==> v@[q] != '/',
        decreases v.len() - i,
    {
        if v[i] == '/' {
            let ghost t = v@.skip(start as int);
            let piece = crate::text::sub_vec(v, start, i);
            proof {
                assert forall|q: int| 0 <= q < i - start implies t[q] != '/' by {
                    assert(t[q] == v@[start + q]);
                }
                assert(t[i - start] == v@[i as int]);
                lemma_split_char_unfold(t, '/', i - start);
                assert(t.skip(i - start + 1) =~= v@.skip(i + 1));
                assert(t.take(i - start) =~= piece@);
            }
            let ghost old_stack = part_views(stack@);
            push_piece(&mut stack, piece);
            proof {
                let d2 = done.push(t.take(i - start));
                assert(d2.drop_last() =~= done);
                assert(split_char(v@, '/') =~= d2 + split_char(v@.skip(i + 1), '/'));
                done = d2;
            }
            start = i + 1;
        }
        i += 1;
    }
    let ghost t = v@.skip(start as int);
    let piece = crate::text::sub_vec(v, start, v.len());
    proof {
        assert forall|q: int| 0 <= q < t.len() implies t[q] != '/' by {
            assert(t[q] == v@[start + q]);
        }
        lemma_split_char_none(t, '/');
        assert(t =~= piece@);
    }
    push_piece(&mut stack, piece);
    proof {
        let d2 = done.push(t);
        assert(d2.drop_last() =~= done);
        assert(split_char(v@, '/') =~= d2);
    }
    stack
}

/// Applies one normalisation step to the component stack.
fn push_piece(stack: &mut Vec<Vec<char>>, piece: Vec<char>)
    ensures
        part_views(final(stack)@) == resolve_step(part_views(old(stack)@), piece@),
{
    if piece.len() == 0 || (piece.len() == 1 && piece[0] == '.') {
        proof {
            if piece.len() == 1 {
                assert(piece@ =~= seq!['.']);
            }
        }
        return;
    }
    if piece.len() == 2 && piece[0] == '.' && piece[1] == '.' {
        assert(piece@ =~= seq!['.', '.']);
        if stack.len() > 0 {
            stack.pop();
            assert(part_views(stack@) =~= part_views(old(stack)@).drop_last());
        }
        return;
    }
    proof {
        if piece@ == seq!['.'] {
            assert(piece.len() == 1);
        }
        if piece@ == seq!['.', '.'] {
            assert(piece.len() == 2);
        }
    }
    stack.push(piece);
    assert(part_views(stack@) =~= part_views(old(stack)@).push(piece@));
}

/// Lexically normalises a path: expands a leading `~`, makes it absolute
/// relative to `cwd`, and collapses `.`/`..` components without touching the
/// filesystem (the path may not exist). The path is returned as text.
pub fn normalize_path(input: &str, home: &str, cwd: &str) -> (r: String)
    ensures
        r@ == normalize_path_spec(input@, home@, cwd@),
{
    let (abs, parts) = normal_form(input, home, cwd);
    let mut out: Vec<char> = Vec::new();
    if abs {
        out.push('/');
    }
    let mut k: usize = 0;
    while k < parts.len()
        invariant
            k <= parts.len(),
            out@ == render_path(abs, part_views(parts@).take(k as int)),
        decreases parts.len() - k,
    {
        if k > 0 {
            out.push('/');
        }
        append_chars(&mut out, &parts[k]);
        proof {
            let t = part_views(parts@).take(k as int + 1);
            assert(t.drop_last() =~= part_views(parts@).take(k as int));
            if k == 0 {
                assert(join_slash(t) == t[0]);
            }
            assert(out@ =~= render_path(abs, t));
        }
        k += 1;
    }
    assert(part_views(parts@).take(parts.len() as int) =~= part_views(parts@));
    string_of(&out)
}

/// Whether the normalised path is absolute, and its components.
fn normal_form(input: &str, home: &str, cwd: &str) -> (r: (bool, Vec<Vec<char>>))
    ensures
        r.0 == is_abs(absolute_path(input@, home@, cwd@)),
        part_views(r.1@) == normal_parts(input@, home@, cwd@),
{
    let a = absolute_chars(&chars_of(input), &chars_of(home), &chars_of(cwd));
    let abs = a.len() > 0 && a[0] == '/';
    (abs, resolve_chars(&a))
}

// ---------------------------------------------------------------------------
// Project groups
// ---------------------------------------------------------------------------

/// The components left after a root, when the path lies under it.
pub open spec fn strip_root(
    abs: bool,
    parts: Seq<Seq<char>>,
    root_abs: bool,
    root_parts: Seq<Seq<char>>,
) -> Option<Seq<Seq<char>>> {
    if abs == root_abs && root_parts.len() <= parts.len() && parts.take(root_parts.len() as int)
        == root_parts {
        Some(parts.skip(root_parts.len() as int))
    } else {
        None
    }
}

/// The group for the components below a root.
pub open spec fn group_below_root(rel: Seq<Seq<char>>, root_name: Seq<char>) -> Seq<char> {
    if rel.len() == 0 {
        root_name
    } else if rel[0] == "flora"@ && rel.len() > 1 && rel[1].len() > 0 {
        rel[1]
    } else if rel[0].len() == 0 {
        "Other"@
    } else {
        rel[0]
    }
}

pub open spec fn project_group_spec(path: Seq<char>, home: Seq<char>, cwd: Seq<char>) -> Seq<char> {
    let abs = is_abs(absolute_path(path, home, cwd));
    let parts = normal_parts(path, home, cwd);
    match strip_root(
        abs,
        parts,
        is_abs(absolute_path("~/dev"@, home, cwd)),
        normal_parts("~/dev"@, home, cwd),
    ) {
        Some(rel) => group_below_root(rel, "dev"@),
        None => match strip_root(
            abs,
            parts,
            is_abs(absolute_path("~/worktrees"@, home, cwd)),
            normal_parts("~/worktrees"@, home, cwd),
        ) {
            Some(rel) => group_below_root(rel, "worktrees"@),
            None => "Other"@,
        },
    }
}

fn parts_have_prefix(parts: &Vec<Vec<char>>, root: &Vec<Vec<char>>) -> (r: bool)
    ensures
        r == (part_views(root@).len() <= part_views(parts@).len() && part_views(parts@).take(
            part_views(root@).len() as int,
        ) == part_views(root@)),
{
    if root.len() > parts.len() {
        return false;
    }
    let mut k: usize = 0;
    while k < root.len()
        invariant
            root.len() <= parts.len(),
            k <= root.len(),
            forall|q: int| 0 <= q < k ==> parts@[q]@ == root@[q]@,
        decreases root.len() - k,
    {
        if !chars_eq(&parts[k], &root[k]) {
            assert(part_views(parts@).take(root.len() as int)[k as int] != part_views(root@)[k as int]);
            return false;
        }
        k += 1;
    }
    assert(part_views(parts@).take(root.len() as int) =~= part_views(root@));
    true
}

fn group_for_rel(parts: &Vec<Vec<char>>, from: usize, root_name: &str) -> (r: String)
    requires
        from <= parts.len(),
    ensures
        r@ == group_below_root(part_views(parts@).skip(from as int), root_name@),
{
    let ghost rel = part_views(parts@).skip(from as int);
    if from == parts.len() {
        return String::from_str(root_name);
    }
    assert(rel[0] == parts@[from as int]@);
    if chars_eq(&parts[from], &chars_of("flora")) && parts.len() - from > 1 && parts[from + 1].len()
        > 0 {
        assert(rel[1] == parts@[from + 1]@);
        return string_of(&parts[from + 1]);
    }
    if parts[from].len() == 0 {
        return String::from_str("Other");
    }
    string_of(&parts[from])
}

/// Maps a working directory to its project group: paths under `~/dev` and
/// `~/worktrees` group by their first component, with `~/dev/flora/<x>`
/// grouping by `<x>`. The roots themselves are `dev` and `worktrees`;
/// anything else is `Other`.
pub fn project_group(path: &str, home: &str, cwd: &str) -> (r: String)
    ensures
        r@ == project_group_spec(path@, home@, cwd@),
{
    let (abs, parts) = normal_form(path, home, cwd);
    let (dev_abs, dev) = normal_form("~/dev", home, cwd);
    if abs == dev_abs && parts_have_prefix(&parts, &dev) {
        proof {
            assert(part_views(parts@).skip(part_views(dev@).len() as int) =~= part_views(
                parts@,
            ).skip(dev.len() as int));
        }
        return group_for_rel(&parts, dev.len(), "dev");
    }
    let (wt_abs, wt) = normal_form("~/worktrees", home, cwd);
    if abs == wt_abs && parts_have_prefix(&parts, &wt) {
        return group_for_rel(&parts, wt.len(), "worktrees");
    }
    String::from_str("Other")
}

/// What `~/` stands for once made absolute: the home directory after
/// `cwd` when home is relative, with a separator at the end unless empty.
pub open spec fn home_base(home: Seq<char>, cwd: Seq<char>) -> Seq<char> {
    let h = if home.len() == 0 || home.last() == '/' {
        home
    } else {
        home + seq!['/']
    };
    if is_abs(h) {
        h
    } else if cwd.len() == 0 || cwd.last() == '/' {
        cwd + h
    } else {
        cwd + seq!['/'] + h
    }
}

/// A plain directory name: not empty, no separator, not `.` or `..`.
pub open spec fn plain_name(x: Seq<char>) -> bool {
    &&& x.len() > 0
    &&& x != seq!['.']
    &&& x != seq!['.', '.']
    &&& forall|q: int| 0 <= q < x.len() ==> x[q] != '/'
}

/// Splitting `a`, a separator and a piece without separators gives the
/// pieces of `a` and then that piece.
proof fn lemma_split_then_piece(a: Seq<char>, b: Seq<char>)
    requires
        forall|q: int| 0 <= q < b.len() ==> b[q] != '/',
    ensures
        split_char(a + seq!['/'] + b, '/') == split_char(a, '/').push(b),
    decreases a.len(),
{
    let s = a + seq!['/'] + b;
    crate::text::lemma_find_char_from_props(a, '/', 0);
    lemma_split_char_none(b, '/');
    match crate::text::find_char_from(a, '/', 0) {
        Some(i) => {
            assert(s[i] == '/');
            assert forall|q: int| 0 <= q < i implies s[q] != '/' by {
                assert(s[q] == a[q]);
            }
            lemma_split_char_unfold(s, '/', i);
            lemma_split_char_unfold(a, '/', i);
            assert(s.take(i) =~= a.take(i));
            assert(s.skip(i + 1) =~= a.skip(i + 1) + seq!['/'] + b);
            lemma_split_then_piece(a.skip(i + 1), b);
            assert(seq![a.take(i)] + split_char(a.skip(i + 1), '/').push(b) =~= (seq![a.take(i)]
                + split_char(a.skip(i + 1), '/')).push(b));
        },
        None => {
            assert(s[a.len() as int] == '/');
            assert forall|q: int| 0 <= q < a.len() implies s[q] != '/' by {
                assert(s[q] == a[q]);
            }
            lemma_split_char_unfold(s, '/', a.len() as int);
            lemma_split_char_none(a, '/');
            assert(s.take(a.len() as int) =~= a);
            assert(s.skip(a.len() as int + 1) =~= b);
            assert(seq![a] + seq![b] =~= seq![a].push(b));
        },
    }
}

/// `~/x` for a plain name `x` is `x` under the home directory: its
/// normalised components are home's followed by `x`, and whether it is
/// absolute does not depend on `x`.
proof fn lemma_home_child(x: Seq<char>, home: Seq<char>, cwd: Seq<char>)
    requires
        plain_name(x),
    ensures
        absolute_path(seq!['~', '/'] + x, home, cwd) == home_base(home, cwd) + x,
        is_abs(absolute_path(seq!['~', '/'] + x, home, cwd)) == is_abs(home_base(home, cwd)),
        normal_parts(seq!['~', '/'] + x, home, cwd) == (if home_base(home, cwd).len() == 0 {
            seq![]
        } else {
            resolve(split_char(home_base(home, cwd).drop_last(), '/'))
        }).push(x),
{
    let input = seq!['~', '/'] + x;
    let b = home_base(home, cwd);
    assert(input.len() != seq!['~'].len());
    assert(input.take(2) =~= seq!['~', '/']);
    assert(input.skip(2) =~= x);
    assert(!is_abs(x));
    let h = if home.len() == 0 || home.last() == '/' {
        home
    } else {
        home + seq!['/']
    };
    assert(expand_home(input, home, cwd) =~= h + x);
    if h.len() > 0 {
        assert((h + x)[0] == h[0]);
    } else {
        assert((h + x)[0] == x[0]);
    }
    assert(absolute_path(input, home, cwd) =~= b + x);
    if b.len() > 0 {
        assert((b + x)[0] == b[0]);
        assert(b.last() == '/');
        assert(b + x =~= b.drop_last() + seq!['/'] + x);
        lemma_split_then_piece(b.drop_last(), x);
    } else {
        assert(b + x =~= x);
        lemma_split_char_none(x, '/');
        assert(seq![x] =~= Seq::<Seq<char>>::empty().push(x));
    }
    let pieces = split_char(b + x, '/');
    assert(pieces.drop_last() =~= (if b.len() == 0 {
        Seq::<Seq<char>>::empty()
    } else {
        split_char(b.drop_last(), '/')
    }));
    assert(pieces.last() == x);
    assert(pieces.len() > 0);
    assert(resolve(pieces) == resolve_step(resolve(pieces.drop_last()), x));
    assert(resolve(Seq::<Seq<char>>::empty()) == Seq::<Seq<char>>::empty());
    assert(normal_parts(input, home, cwd) == resolve(pieces));
}

/// What a path below a project root is grouped by, given the components
/// `rest` it has below that root: the root itself is named by the root
/// (`dev` or `worktrees`), a path below it by its first component, and one
/// below its `flora` folder by the component after `flora`.
pub open spec fn group_under_root(rest: Seq<Seq<char>>, root_name: Seq<char>, g: Seq<char>) -> bool {
    &&& rest.len() == 0 ==> g == root_name
    &&& rest.len() > 0 && rest[0].len() > 0 && rest[0] != "flora"@ ==> g == rest[0]
    &&& rest.len() > 1 && rest[0] == "flora"@ && rest[1].len() > 0 ==> g == rest[1]
}

/// Paths that normalise to `~/dev` or `~/worktrees`, or to a place below
/// one of them, take their group from that root: the roots themselves are
/// the groups `dev` and `worktrees`, and a path below a root is grouped by
/// its first component there (by the next one below `flora`).
pub proof fn lemma_root_directories_name_their_groups(
    path: Seq<char>,
    home: Seq<char>,
    cwd: Seq<char>,
    rest: Seq<Seq<char>>,
)
    ensures
        (is_abs(absolute_path(path, home, cwd)) == is_abs(absolute_path("~/dev"@, home, cwd))
            && normal_parts(path, home, cwd) == normal_parts("~/dev"@, home, cwd) + rest) ==> group_under_root(
            rest,
            "dev"@,
            project_group_spec(path, home, cwd),
        ),
        (is_abs(absolute_path(path, home, cwd)) == is_abs(absolute_path("~/worktrees"@, home, cwd))
            && normal_parts(path, home, cwd) == normal_parts("~/worktrees"@, home, cwd) + rest)
            ==> group_under_root(rest, "worktrees"@, project_group_spec(path, home, cwd)),
        (is_abs(absolute_path(path, home, cwd)) == is_abs(absolute_path("~/worktrees"@, home, cwd))
            && normal_parts(path, home, cwd) == normal_parts("~/worktrees"@, home, cwd)) ==> project_group_spec(
            path,
            home,
            cwd,
        ) == "worktrees"@,
        (is_abs(absolute_path(path, home, cwd)) == is_abs(absolute_path("~/dev"@, home, cwd))
            && normal_parts(path, home, cwd) == normal_parts("~/dev"@, home, cwd)) ==> project_group_spec(
            path,
            home,
            cwd,
        ) == "dev"@,
{
    reveal_strlit("~/dev");
    reveal_strlit("~/worktrees");
    reveal_strlit("dev");
    reveal_strlit("worktrees");
    let dev = "dev"@;
    let wt = "worktrees"@;
    assert("~/dev"@ =~= seq!['~', '/'] + dev);
    assert("~/worktrees"@ =~= seq!['~', '/'] + wt);
    assert(plain_name(dev));
    assert(plain_name(wt));
    lemma_home_child(dev, home, cwd);
    lemma_home_child(wt, home, cwd);
    let dp = normal_parts("~/dev"@, home, cwd);
    let wp = normal_parts("~/worktrees"@, home, cwd);
    let parts = normal_parts(path, home, cwd);
    assert(dp + Seq::<Seq<char>>::empty() =~= dp);
    assert(wp + Seq::<Seq<char>>::empty() =~= wp);
    if parts == dp + rest {
        assert(parts.take(dp.len() as int) =~= dp);
        assert(parts.skip(dp.len() as int) =~= rest);
    }
    if parts == wp + rest {
        assert(dp.len() == wp.len());
        assert(dp.last() == dev && wp.last() == wt);
        assert(dev != wt) by {
            assert(dev.len() != wt.len());
        }
        assert(parts.take(dp.len() as int) != dp) by {
            assert(parts.take(dp.len() as int)[dp.len() - 1] == wp[wp.len() - 1]);
        }
        assert(parts.take(wp.len() as int) =~= wp);
        assert(parts.skip(wp.len() as int) =~= rest);
    }
    if parts == dp {
        assert(parts.take(dp.len() as int) =~= dp);
        assert(parts.skip(dp.len() as int) =~= Seq::<Seq<char>>::empty());
    }
    if parts == wp {
        assert(dp.len() == wp.len());
        assert(dp.last() == dev && wp.last() == wt);
        assert(dev != wt) by {
            assert(dev.len() != wt.len());
        }
        assert(parts.take(dp.len() as int) != dp) by {
            assert(parts.take(dp.len() as int)[dp.len() - 1] == wp[wp.len() - 1]);
        }
        assert(parts.take(wp.len() as int) =~= wp);
        assert(parts.skip(wp.len() as int) =~= Seq::<Seq<char>>::empty());
    }
}

/// A path that lies below neither `~/dev` nor `~/worktrees` once
/// normalised is in group `Other`.
pub proof fn lemma_outside_roots_is_other(path: Seq<char>, home: Seq<char>, cwd: Seq<char>)
    ensures
        ((forall|rest: Seq<Seq<char>>|
            !(is_abs(absolute_path(path, home, cwd)) == is_abs(absolute_path("~/dev"@, home, cwd))
                && normal_parts(path, home, cwd) == #[trigger] (normal_parts("~/dev"@, home, cwd) + rest)))
            && (forall|rest: Seq<Seq<char>>|
            !(is_abs(absolute_path(path, home, cwd)) == is_abs(absolute_path("~/worktrees"@, home, cwd))
                && normal_parts(path, home, cwd) == #[trigger] (normal_parts("~/worktrees"@, home, cwd) + rest))))
            ==> project_group_spec(path, home, cwd) == "Other"@,
{
    let dp = normal_parts("~/dev"@, home, cwd);
    let wp = normal_parts("~/worktrees"@, home, cwd);
    let parts = normal_parts(path, home, cwd);
    if dp.len() <= parts.len() && parts.take(dp.len() as int) == dp {
        assert(parts =~= dp + parts.skip(dp.len() as int));
    }
    if wp.len() <= parts.len() && parts.take(wp.len() as int) == wp {
        assert(parts =~= wp + parts.skip(wp.len() as int));
    }
}


// ---------------------------------------------------------------------------
// Grouping
// ---------------------------------------------------------------------------

/// Group name for windows running a remote shell. A remote session's local cwd
/// says nothing useful, so these never join a folder group.
pub const SSH_GROUP: &'static str = "ssh";

/// Group name for windows running a herdr workspace. herdr manages its own
/// tabs, so its windows get one pinned section instead of a folder group.
pub const HERDR_GROUP: &'static str = "herdr";

/// The first window, at or after `k`, with a non-empty id equal to `id`.
pub open spec fn window_with_id_from(ws: Seq<Window>, id: Seq<char>, k: int) -> Option<int>
    decreases ws.len() - k,
{
    if k < 0 || k >= ws.len() {
        None
    } else if ws[k].window_id@.len() > 0 && ws[k].window_id@ == id {
        Some(k)
    } else {
        window_with_id_from(ws, id, k + 1)
    }
}

pub open spec fn window_with_id(ws: Seq<Window>, id: Seq<char>) -> Option<int> {
    window_with_id_from(ws, id, 0)
}

/// The windows a section lists, in its order; ids without a window are
/// skipped.
pub open spec fn section_members(ws: Seq<Window>, ids: Seq<Seq<char>>) -> Seq<int>
    decreases ids.len(),
{
    if ids.len() == 0 {
        seq![]
    } else {
        let prev = section_members(ws, ids.drop_last());
        match window_with_id(ws, ids.last()) {
            Some(i) => prev.push(i),
            None => prev,
        }
    }
}

/// The custom sections that have at least one live window, in layout order.
pub open spec fn section_groups(ws: Seq<Window>, l: Seq<SectionView>) -> Seq<(Seq<char>, Seq<int>)>
    decreases l.len(),
{
    if l.len() == 0 {
        seq![]
    } else {
        let prev = section_groups(ws, l.drop_last());
        let m = section_members(ws, l.last().windows);
        if m.len() > 0 {
            prev.push((l.last().name, m))
        } else {
            prev
        }
    }
}

/// A window is assigned when its non-empty id is listed by some section.
pub open spec fn is_assigned(w: Window, l: Seq<SectionView>) -> bool {
    w.window_id@.len() > 0 && exists|k: int|
        0 <= k < l.len() && #[trigger] l[k].windows.contains(w.window_id@)
}

/// The windows below `n` that no section claims, in order.
pub open spec fn unassigned_upto(ws: Seq<Window>, l: Seq<SectionView>, n: int) -> Seq<int>
    decreases n,
{
    if n <= 0 {
        seq![]
    } else {
        let prev = unassigned_upto(ws, l, n - 1);
        if is_assigned(ws[n - 1], l) {
            prev
        } else {
            prev.push(n - 1)
        }
    }
}

/// Folder group names of the given windows, in order of first appearance.
pub open spec fn group_names(ws: Seq<Window>, idx: Seq<int>) -> Seq<Seq<char>>
    decreases idx.len(),
{
    if idx.len() == 0 {
        seq![]
    } else {
        let prev = group_names(ws, idx.drop_last());
        let g = ws[idx.last()].group@;
        if prev.contains(g) {
            prev
        } else {
            prev.push(g)
        }
    }
}

/// The given windows whose folder group is `name`, in order.
pub open spec fn members_named(ws: Seq<Window>, idx: Seq<int>, name: Seq<char>) -> Seq<int>
    decreases idx.len(),
{
    if idx.len() == 0 {
        seq![]
    } else {
        let prev = members_named(ws, idx.drop_last(), name);
        if ws[idx.last()].group@ == name {
            prev.push(idx.last())
        } else {
            prev
        }
    }
}

pub open spec fn without_name(names: Seq<Seq<char>>, n: Seq<char>) -> Seq<Seq<char>>
    decreases names.len(),
{
    if names.len() == 0 {
        seq![]
    } else {
        let prev = without_name(names.drop_last(), n);
        if names.last() == n {
            prev
        } else {
            prev.push(names.last())
        }
    }
}

/// Lexicographic order of character sequences, as `String` orders text.
pub open spec fn lex_less(a: Seq<char>, b: Seq<char>) -> bool
    decreases a.len(),
{
    if a.len() == 0 {
        b.len() > 0
    } else if b.len() == 0 {
        false
    } else if a[0] != b[0] {
        (a[0] as u32) < (b[0] as u32)
    } else {
        lex_less(a.drop_first(), b.drop_first())
    }
}

/// `x` placed into a list sorted by lowercase name, after every element
/// whose lowercase name is not greater.
pub open spec fn insert_sorted(x: Seq<char>, sorted: Seq<Seq<char>>) -> Seq<Seq<char>>
    decreases sorted.len(),
{
    if sorted.len() == 0 {
        seq![x]
    } else if lex_less(lowercase(x), lowercase(sorted[0])) {
        seq![x] + sorted
    } else {
        seq![sorted[0]] + insert_sorted(x, sorted.drop_first())
    }
}

/// The names stably sorted by their lowercase form.
pub open spec fn sort_by_lowercase(names: Seq<Seq<char>>) -> Seq<Seq<char>>
    decreases names.len(),
{
    if names.len() == 0 {
        seq![]
    } else {
        insert_sorted(names.last(), sort_by_lowercase(names.drop_last()))
    }
}

/// Folder groups of the given windows: names ordered case-insensitively,
/// `Other` last.
pub open spec fn folder_groups(ws: Seq<Window>, idx: Seq<int>) -> Seq<(Seq<char>, Seq<int>)> {
    let names = group_names(ws, idx);
    let sorted = sort_by_lowercase(without_name(names, "Other"@));
    let body = sorted.map_values(|n: Seq<char>| (n, members_named(ws, idx, n)));
    if names.contains("Other"@) {
        body.push(("Other"@, members_named(ws, idx, "Other"@)))
    } else {
        body
    }
}

/// The first group named `name`, if any.
pub open spec fn group_position_from(gs: Seq<(Seq<char>, Seq<int>)>, name: Seq<char>, k: int) -> Option<int>
    decreases gs.len() - k,
{
    if k < 0 || k >= gs.len() {
        None
    } else if gs[k].0 == name {
        Some(k)
    } else {
        group_position_from(gs, name, k + 1)
    }
}

/// The first group named `herdr` moved to the front.
pub open spec fn pin_herdr(gs: Seq<(Seq<char>, Seq<int>)>) -> Seq<(Seq<char>, Seq<int>)> {
    match group_position_from(gs, "herdr"@, 0) {
        Some(p) => seq![gs[p]] + gs.remove(p),
        None => gs,
    }
}

/// The sidebar's groups: custom sections first, then folder groups of the
/// windows no section claims, with `herdr` pinned to the top. Each group is
/// a name and the indexes of its windows.
pub open spec fn grouped_spec(ws: Seq<Window>, l: Seq<SectionView>) -> Seq<(Seq<char>, Seq<int>)> {
    pin_herdr(section_groups(ws, l) + folder_groups(ws, unassigned_upto(ws, l, ws.len() as int)))
}

/// `refs` are the windows of `ws` at the indexes `m`.
pub open spec fn refs_match<'a>(refs: Seq<&'a Window>, ws: Seq<Window>, m: Seq<int>) -> bool {
    &&& refs.len() == m.len()
    &&& forall|j: int| 0 <= j < m.len() ==> 0 <= #[trigger] m[j] < ws.len()
    &&& forall|j: int| 0 <= j < m.len() ==> *(#[trigger] refs[j]) == ws[m[j]]
}

/// One output group holds the name and windows of a modelled group.
pub open spec fn group_match<'a>(
    o: (String, Vec<&'a Window>),
    ws: Seq<Window>,
    g: (Seq<char>, Seq<int>),
) -> bool {
    o.0@ == g.0 && refs_match(o.1@, ws, g.1)
}

/// `out` holds the groups `g` with the windows of `ws` they index.
pub open spec fn groups_match<'a>(
    out: Seq<(String, Vec<&'a Window>)>,
    ws: Seq<Window>,
    g: Seq<(Seq<char>, Seq<int>)>,
) -> bool {
    &&& out.len() == g.len()
    &&& forall|k: int| 0 <= k < g.len() ==> group_match(#[trigger] out[k], ws, g[k])
}

pub open spec fn ints(v: Seq<usize>) -> Seq<int> {
    v.map_values(|i: usize| i as int)
}

pub proof fn lemma_window_with_id_from(ws: Seq<Window>, id: Seq<char>, k: int)
    requires
        0 <= k,
    ensures
        match window_with_id_from(ws, id, k) {
            Some(i) => k <= i < ws.len() && ws[i].window_id@.len() > 0 && ws[i].window_id@ == id,
            None => forall|q: int|
                k <= q < ws.len() ==> !(ws[q].window_id@.len() > 0 && ws[q].window_id@ == id),
        },
    decreases ws.len() - k,
{
    if k < ws.len() && !(ws[k].window_id@.len() > 0 && ws[k].window_id@ == id) {
        lemma_window_with_id_from(ws, id, k + 1);
    }
}

fn find_window_by_id(windows: &[Window], id: &String) -> (r: Option<usize>)
    ensures
        r matches Some(i) ==> window_with_id(windows@, id@) == Some(i as int),
        r is None ==> window_with_id(windows@, id@) is None,
{
    let mut k: usize = 0;
    while k < windows.len()
        invariant
            k <= windows.len(),
            window_with_id(windows@, id@) == window_with_id_from(windows@, id@, k as int),
        decreases windows.len() - k,
    {
        if !windows[k].window_id.as_str().is_empty() && windows[k].window_id == *id {
            return Some(k);
        }
        k += 1;
    }
    None
}

fn strings_contain(list: &Vec<String>, s: &String) -> (r: bool)
    ensures
        r == string_views(list@).contains(s@),
{
    let mut i: usize = 0;
    while i < list.len()
        invariant
            i <= list.len(),
            forall|k: int| 0 <= k < i ==> list@[k]@ != s@,
        decreases list.len() - i,
    {
        if list[i] == *s {
            assert(string_views(list@)[i as int] == s@);
            return true;
        }
        i += 1;
    }
    proof {
        if string_views(list@).contains(s@) {
            let k = choose|k: int|
                0 <= k < string_views(list@).len() && string_views(list@)[k] == s@;
            assert(list@[k]@ == s@);
        }
    }
    false
}

fn window_is_assigned(w: &Window, layout: &SectionLayout) -> (r: bool)
    ensures
        r == is_assigned(*w, layout@),
{
    if w.window_id.as_str().is_empty() {
        return false;
    }
    let mut k: usize = 0;
    while k < layout.sections.len()
        invariant
            k <= layout.sections.len(),
            w.window_id@.len() > 0,
            forall|q: int| 0 <= q < k ==> !(#[trigger] layout@[q]).windows.contains(w.window_id@),
        decreases layout.sections.len() - k,
    {
        assert(layout@[k as int] == layout.sections@[k as int]@);
        if strings_contain(&layout.sections[k].windows, &w.window_id) {
            assert(layout@[k as int].windows.contains(w.window_id@));
            return true;
        }
        k += 1;
    }
    false
}

/// Whether `a` sorts strictly before `b`.
fn lex_less_chars(a: &[char], b: &[char]) -> (r: bool)
    ensures
        r == lex_less(a@, b@),
{
    let mut i: usize = 0;
    assert(a@.skip(0) =~= a@);
    assert(b@.skip(0) =~= b@);
    while i < a.len() && i < b.len() && a[i] == b[i]
        invariant
            i <= a.len(),
            i <= b.len(),
            lex_less(a@, b@) == lex_less(a@.skip(i as int), b@.skip(i as int)),
        decreases a.len() - i,
    {
        proof {
            assert(a@.skip(i as int).drop_first() =~= a@.skip(i + 1));
            assert(b@.skip(i as int).drop_first() =~= b@.skip(i + 1));
        }
        i += 1;
    }
    if i == a.len() {
        return i < b.len();
    }
    if i == b.len() {
        return false;
    }
    assert(a@.skip(i as int)[0] == a@[i as int]);
    assert(b@.skip(i as int)[0] == b@[i as int]);
    (a[i] as u32) < (b[i] as u32)
}

proof fn lemma_insert_sorted_split(x: Seq<char>, s: Seq<Seq<char>>, p: int)
    requires
        0 <= p <= s.len(),
        forall|q: int| 0 <= q < p ==> !lex_less(lowercase(x), lowercase(#[trigger] s[q])),
    ensures
        insert_sorted(x, s) == s.take(p) + insert_sorted(x, s.skip(p)),
    decreases p,
{
    if p > 0 {
        assert(!lex_less(lowercase(x), lowercase(s[0])));
        let t = s.drop_first();
        assert forall|q: int| 0 <= q < p - 1 implies !lex_less(lowercase(x), lowercase(#[trigger] t[q])) by {
            assert(t[q] == s[q + 1]);
        }
        lemma_insert_sorted_split(x, t, p - 1);
        assert(t.skip(p - 1) =~= s.skip(p));
        assert(s.take(p) =~= seq![s[0]] + t.take(p - 1));
    } else {
        assert(s.skip(0) =~= s);
        assert(s.take(0) + insert_sorted(x, s.skip(0)) =~= insert_sorted(x, s));
    }
}

/// Inserts `x` (with lowercase key `kx`) into `names`/`keys`, kept sorted.
fn insert_by_key(names: &mut Vec<Vec<char>>, keys: &mut Vec<Vec<char>>, x: Vec<char>, kx: Vec<char>)
    requires
        old(names)@.len() == old(keys)@.len(),
        kx@ == lowercase(x@),
        forall|q: int| 0 <= q < old(keys)@.len() ==> old(keys)@[q]@ == lowercase(old(names)@[q]@),
    ensures
        final(names)@.len() == final(keys)@.len(),
        forall|q: int| 0 <= q < final(keys)@.len() ==> final(keys)@[q]@ == lowercase(final(names)@[q]@),
        part_views(final(names)@) == insert_sorted(x@, part_views(old(names)@)),
{
    let ghost s = part_views(names@);
    let mut p: usize = 0;
    while p < names.len() && !lex_less_chars(&kx, &keys[p])
        invariant
            p <= names.len(),
            names.len() == keys.len(),
            s == part_views(names@),
            kx@ == lowercase(x@),
            forall|q: int| 0 <= q < keys@.len() ==> keys@[q]@ == lowercase(names@[q]@),
            forall|q: int| 0 <= q < p ==> !lex_less(lowercase(x@), lowercase(#[trigger] s[q])),
        decreases names.len() - p,
    {
        assert(s[p as int] == names@[p as int]@);
        p += 1;
    }
    proof {
        lemma_insert_sorted_split(x@, s, p as int);
        if p < names.len() {
            assert(s.skip(p as int)[0] == s[p as int]);
            assert(seq![x@] + s.skip(p as int) == insert_sorted(x@, s.skip(p as int)));
        } else {
            assert(s.skip(p as int) =~= Seq::<Seq<char>>::empty());
        }
    }
    let ghost xv = x@;
    names.insert(p, x);
    keys.insert(p, kx);
    proof {
        assert(part_views(names@) =~= s.take(p as int) + seq![xv] + s.skip(p as int));
        assert(s.take(p as int) + (seq![xv] + s.skip(p as int)) =~= s.take(p as int) + seq![xv]
            + s.skip(p as int));
        assert forall|q: int| 0 <= q < keys@.len() implies keys@[q]@ == lowercase(names@[q]@) by {
            if q < p {
            } else if q == p {
            } else {
                assert(keys@[q] == old(keys)@[q - 1]);
                assert(names@[q] == old(names)@[q - 1]);
            }
        }
    }
}


fn section_member_refs<'a>(windows: &'a [Window], ids: &Vec<String>) -> (r: Vec<&'a Window>)
    ensures
        refs_match(r@, windows@, section_members(windows@, string_views(ids@))),
{
    let mut members: Vec<&'a Window> = Vec::new();
    let mut j: usize = 0;
    while j < ids.len()
        invariant
            j <= ids.len(),
            refs_match(members@, windows@, section_members(windows@, string_views(ids@).take(j as int))),
        decreases ids.len() - j,
    {
        let found = find_window_by_id(windows, &ids[j]);
        proof {
            lemma_window_with_id_from(windows@, ids@[j as int]@, 0);
            let t = string_views(ids@).take(j as int + 1);
            assert(t.drop_last() =~= string_views(ids@).take(j as int));
            assert(t.last() == ids@[j as int]@);
        }
        let ghost pm = section_members(windows@, string_views(ids@).take(j as int));
        let ghost prev = members@;
        match found {
            Some(i) => {
                members.push(&windows[i]);
                proof {
                    let m = pm.push(i as int);
                    assert(section_members(windows@, string_views(ids@).take(j as int + 1)) == m);
                    assert forall|q: int| 0 <= q < m.len() implies 0 <= #[trigger] m[q] < windows@.len() by {
                        if q < prev.len() {
                            assert(m[q] == pm[q]);
                        }
                    }
                    assert forall|q: int| 0 <= q < m.len() implies *(#[trigger] members@[q]) == windows@[m[q]] by {
                        if q < prev.len() {
                            assert(members@[q] == prev[q]);
                            assert(m[q] == pm[q]);
                        }
                    }
                    assert(members@.len() == m.len());
                    assert(refs_match(members@, windows@, m));
                }
            },
            None => {
                assert(section_members(windows@, string_views(ids@).take(j as int + 1)) == pm);
            },
        }
        j += 1;
    }
    assert(string_views(ids@).take(ids.len() as int) =~= string_views(ids@));
    members
}

fn section_group_refs<'a>(windows: &'a [Window], layout: &SectionLayout) -> (r: Vec<(String, Vec<&'a Window>)>)
    ensures
        groups_match(r@, windows@, section_groups(windows@, layout@)),
{
    let mut out: Vec<(String, Vec<&'a Window>)> = Vec::new();
    let mut k: usize = 0;
    while k < layout.sections.len()
        invariant
            k <= layout.sections.len(),
            groups_match(out@, windows@, section_groups(windows@, layout@.take(k as int))),
        decreases layout.sections.len() - k,
    {
        let members = section_member_refs(windows, &layout.sections[k].windows);
        proof {
            let t = layout@.take(k as int + 1);
            assert(t.drop_last() =~= layout@.take(k as int));
            assert(t.last() == layout.sections@[k as int]@);
        }
        if members.len() > 0 {
            out.push((layout.sections[k].name.clone(), members));
        }
        k += 1;
    }
    assert(layout@.take(layout.sections.len() as int) =~= layout@);
    out
}

fn unassigned_indices(windows: &[Window], layout: &SectionLayout) -> (r: Vec<usize>)
    ensures
        ints(r@) == unassigned_upto(windows@, layout@, windows@.len() as int),
        forall|j: int| 0 <= j < r@.len() ==> r@[j] < windows@.len(),
{
    let mut r: Vec<usize> = Vec::new();
    let mut i: usize = 0;
    while i < windows.len()
        invariant
            i <= windows.len(),
            ints(r@) == unassigned_upto(windows@, layout@, i as int),
            forall|j: int| 0 <= j < r@.len() ==> r@[j] < i,
        decreases windows.len() - i,
    {
        if !window_is_assigned(&windows[i], layout) {
            r.push(i);
        }
        assert(ints(r@) =~= unassigned_upto(windows@, layout@, i + 1));
        i += 1;
    }
    r
}

fn names_contain(names: &Vec<Vec<char>>, g: &[char]) -> (r: bool)
    ensures
        r == part_views(names@).contains(g@),
{
    let mut i: usize = 0;
    while i < names.len()
        invariant
            i <= names.len(),
            forall|k: int| 0 <= k < i ==> names@[k]@ != g@,
        decreases names.len() - i,
    {
        if chars_eq(&names[i], g) {
            assert(part_views(names@)[i as int] == g@);
            return true;
        }
        i += 1;
    }
    proof {
        if part_views(names@).contains(g@) {
            let k = choose|k: int| 0 <= k < part_views(names@).len() && part_views(names@)[k] == g@;
            assert(names@[k]@ == g@);
        }
    }
    false
}

fn member_refs_named<'a>(windows: &'a [Window], idx: &Vec<usize>, name: &[char]) -> (r: Vec<&'a Window>)
    requires
        forall|j: int| 0 <= j < idx@.len() ==> idx@[j] < windows@.len(),
    ensures
        refs_match(r@, windows@, members_named(windows@, ints(idx@), name@)),
{
    let mut refs: Vec<&'a Window> = Vec::new();
    let mut t: usize = 0;
    while t < idx.len()
        invariant
            t <= idx.len(),
            forall|j: int| 0 <= j < idx@.len() ==> idx@[j] < windows@.len(),
            refs_match(refs@, windows@, members_named(windows@, ints(idx@).take(t as int), name@)),
        decreases idx.len() - t,
    {
        let i = idx[t];
        proof {
            let s = ints(idx@).take(t as int + 1);
            assert(s.drop_last() =~= ints(idx@).take(t as int));
            assert(s.last() == i as int);
        }
        let ghost pm = members_named(windows@, ints(idx@).take(t as int), name@);
        let ghost prev = refs@;
        if chars_eq(&chars_of(windows[i].group.as_str()), name) {
            refs.push(&windows[i]);
            proof {
                let m = pm.push(i as int);
                assert(members_named(windows@, ints(idx@).take(t as int + 1), name@) == m);
                assert forall|q: int| 0 <= q < m.len() implies 0 <= #[trigger] m[q] < windows@.len() by {
                    if q < prev.len() {
                        assert(m[q] == pm[q]);
                    }
                }
                assert forall|q: int| 0 <= q < m.len() implies *(#[trigger] refs@[q]) == windows@[m[q]] by {
                    if q < prev.len() {
                        assert(refs@[q] == prev[q]);
                        assert(m[q] == pm[q]);
                    }
                }
                assert(refs_match(refs@, windows@, m));
            }
        } else {
            assert(members_named(windows@, ints(idx@).take(t as int + 1), name@) == pm);
        }
        t += 1;
    }
    assert(ints(idx@).take(idx.len() as int) =~= ints(idx@));
    refs
}

fn folder_group_refs<'a>(windows: &'a [Window], idx: &Vec<usize>) -> (r: Vec<(String, Vec<&'a Window>)>)
    requires
        forall|j: int| 0 <= j < idx@.len() ==> idx@[j] < windows@.len(),
    ensures
        groups_match(r@, windows@, folder_groups(windows@, ints(idx@))),
{
    let ghost ix = ints(idx@);
    // group names, in order of first appearance
    let mut names: Vec<Vec<char>> = Vec::new();
    let mut t: usize = 0;
    while t < idx.len()
        invariant
            t <= idx.len(),
            ix == ints(idx@),
            forall|j: int| 0 <= j < idx@.len() ==> idx@[j] < windows@.len(),
            part_views(names@) == group_names(windows@, ix.take(t as int)),
        decreases idx.len() - t,
    {
        let g = chars_of(windows[idx[t]].group.as_str());
        proof {
            let s = ix.take(t as int + 1);
            assert(s.drop_last() =~= ix.take(t as int));
            assert(s.last() == idx@[t as int] as int);
        }
        if !names_contain(&names, &g) {
            names.push(g);
            assert(part_views(names@) =~= group_names(windows@, ix.take(t as int + 1)));
        }
        t += 1;
    }
    assert(ix.take(idx.len() as int) =~= ix);
    let other = chars_of("Other");
    let has_other = names_contain(&names, &other);
    // the other names, sorted by their lowercase form
    let mut sorted: Vec<Vec<char>> = Vec::new();
    let mut keys: Vec<Vec<char>> = Vec::new();
    let ghost filtered: Seq<Seq<char>> = seq![];
    let mut n: usize = 0;
    while n < names.len()
        invariant
            n <= names.len(),
            other@ == "Other"@,
            sorted@.len() == keys@.len(),
            forall|q: int| 0 <= q < keys@.len() ==> keys@[q]@ == lowercase(sorted@[q]@),
            filtered == without_name(part_views(names@).take(n as int), "Other"@),
            part_views(sorted@) == sort_by_lowercase(filtered),
        decreases names.len() - n,
    {
        proof {
            let s = part_views(names@).take(n as int + 1);
            assert(s.drop_last() =~= part_views(names@).take(n as int));
            assert(s.last() == names@[n as int]@);
        }
        if !chars_eq(&names[n], &other) {
            let x = clone_chars(&names[n]);
            let key = chars_of(to_lowercase(string_of(&names[n]).as_str()).as_str());
            proof {
                let f2 = filtered.push(x@);
                assert(f2.drop_last() =~= filtered);
                filtered = f2;
            }
            insert_by_key(&mut sorted, &mut keys, x, key);
        }
        n += 1;
    }
    assert(part_views(names@).take(names.len() as int) =~= part_views(names@));
    // each group with its windows
    let ghost sv = part_views(sorted@);
    let mut out: Vec<(String, Vec<&'a Window>)> = Vec::new();
    let mut m: usize = 0;
    while m < sorted.len()
        invariant
            m <= sorted.len(),
            sv == part_views(sorted@),
            ix == ints(idx@),
            forall|j: int| 0 <= j < idx@.len() ==> idx@[j] < windows@.len(),
            groups_match(
                out@,
                windows@,
                sv.take(m as int).map_values(|nm: Seq<char>| (nm, members_named(windows@, ix, nm))),
            ),
        decreases sorted.len() - m,
    {
        let refs = member_refs_named(windows, idx, &sorted[m]);
        out.push((string_of(&sorted[m]), refs));
        proof {
            let body = sv.take(m as int + 1).map_values(|nm: Seq<char>| (nm, members_named(windows@, ix, nm)));
            let prev = sv.take(m as int).map_values(|nm: Seq<char>| (nm, members_named(windows@, ix, nm)));
            assert(body =~= prev.push((sv[m as int], members_named(windows@, ix, sv[m as int]))));
        }
        m += 1;
    }
    assert(sv.take(sorted.len() as int) =~= sv);
    if has_other {
        let refs = member_refs_named(windows, idx, &other);
        let ghost prev = out@;
        out.push((String::from_str("Other"), refs));
    }
    out
}

fn clone_chars(v: &Vec<char>) -> (r: Vec<char>)
    ensures
        r@ == v@,
{
    crate::text::sub_vec(v, 0, v.len())
}

fn pin_herdr_groups<'a>(out: &mut Vec<(String, Vec<&'a Window>)>, ws: Ghost<Seq<Window>>, g: Ghost<Seq<(Seq<char>, Seq<int>)>>)
    requires
        groups_match(old(out)@, ws@, g@),
    ensures
        groups_match(final(out)@, ws@, pin_herdr(g@)),
{
    let herdr = chars_of(HERDR_GROUP);
    assert(herdr@ == "herdr"@);
    let mut p: usize = 0;
    while p < out.len()
        invariant
            p <= out.len(),
            herdr@ == "herdr"@,
            groups_match(out@, ws@, g@),
            group_position_from(g@, "herdr"@, 0) == group_position_from(g@, "herdr"@, p as int),
        decreases out.len() - p,
    {
        assert(group_match(out@[p as int], ws@, g@[p as int]));
        if chars_eq(&chars_of(out[p].0.as_str()), &herdr) {
            let ghost before = out@;
            let moved = out.remove(p);
            out.insert(0, moved);
            proof {
                let pg = pin_herdr(g@);
                assert(pg == seq![g@[p as int]] + g@.remove(p as int));
                assert(out@ == seq![before[p as int]] + before.remove(p as int));
                assert forall|k: int| 0 <= k < pg.len() implies group_match(#[trigger] out@[k], ws@, pg[k]) by {
                    if k == 0 {
                    } else if k - 1 < p {
                        assert(out@[k] == before[k - 1]);
                        assert(pg[k] == g@[k - 1]);
                    } else {
                        assert(out@[k] == before[k]);
                        assert(pg[k] == g@[k]);
                    }
                }
            }
            return;
        }
        p += 1;
    }
}

/// Groups windows with persistent custom sections first. A window assigned
/// to a custom section is omitted from its folder-derived group; folder
/// groups are ordered case-insensitively with `Other` last, and a `herdr`
/// group always rides at the top.
pub fn grouped_windows_with_sections<'a>(windows: &'a [Window], layout: &SectionLayout) -> (r: Vec<(String, Vec<&'a Window>)>)
    ensures
        groups_match(r@, windows@, grouped_spec(windows@, layout@)),
{
    let mut out = section_group_refs(windows, layout);
    let un = unassigned_indices(windows, layout);
    let folder = folder_group_refs(windows, &un);
    let ghost sg = section_groups(windows@, layout@);
    let ghost fg = folder_groups(windows@, ints(un@));
    let ghost before = out@;
    let mut folder = folder;
    let ghost fo = folder@;
    out.append(&mut folder);
    proof {
        assert(out@ == before + fo);
        assert forall|k: int| 0 <= k < (sg + fg).len() implies group_match(#[trigger] out@[k], windows@, (sg + fg)[k]) by {
            if k < sg.len() {
                assert(out@[k] == before[k]);
            } else {
                assert(out@[k] == fo[k - sg.len()]);
                assert(group_match(fo[k - sg.len()], windows@, fg[k - sg.len()]));
            }
        }
    }
    pin_herdr_groups(&mut out, Ghost(windows@), Ghost(sg + fg));
    out
}

/// Groups windows by their folder group, ordering group names
/// case-insensitively with `Other` always last.
pub fn grouped_windows<'a>(windows: &'a [Window]) -> (r: Vec<(String, Vec<&'a Window>)>)
    ensures
        groups_match(r@, windows@, grouped_spec(windows@, seq![])),
{
    let layout = SectionLayout { sections: Vec::new() };
    assert(layout@ =~= Seq::<SectionView>::empty());
    grouped_windows_with_sections(windows, &layout)
}


// ---------------------------------------------------------------------------
// Sidebar order and adjacency
// ---------------------------------------------------------------------------

/// The window indexes of the groups, in order.
pub open spec fn flatten(g: Seq<(Seq<char>, Seq<int>)>) -> Seq<int>
    decreases g.len(),
{
    if g.len() == 0 {
        seq![]
    } else {
        flatten(g.drop_last()) + g.last().1
    }
}

/// The window indexes (tmux's `index` field) in sidebar order.
pub open spec fn sidebar_order_spec(ws: Seq<Window>, l: Seq<SectionView>) -> Seq<Seq<char>> {
    flatten(grouped_spec(ws, l)).map_values(|i: int| ws[i].index@)
}

pub open spec fn strings_view(v: Seq<String>) -> Seq<Seq<char>> {
    v.map_values(|s: String| s@)
}

pub fn sidebar_window_order_with_sections(windows: &[Window], layout: &SectionLayout) -> (r: Vec<String>)
    ensures
        strings_view(r@) == sidebar_order_spec(windows@, layout@),
{
    let groups = grouped_windows_with_sections(windows, layout);
    let ghost g = grouped_spec(windows@, layout@);
    let mut out: Vec<String> = Vec::new();
    let mut k: usize = 0;
    while k < groups.len()
        invariant
            k <= groups.len(),
            g == grouped_spec(windows@, layout@),
            groups_match(groups@, windows@, g),
            strings_view(out@) == flatten(g.take(k as int)).map_values(|i: int| windows@[i].index@),
        decreases groups.len() - k,
    {
        assert(group_match(groups@[k as int], windows@, g[k as int]));
        let ws = &groups[k].1;
        let ghost before = strings_view(out@);
        let mut j: usize = 0;
        while j < ws.len()
            invariant
                j <= ws.len(),
                k < groups@.len(),
                g.len() == groups@.len(),
                ws@ == groups@[k as int].1@,
                refs_match(ws@, windows@, g[k as int].1),
                strings_view(out@) == before + g[k as int].1.take(j as int).map_values(
                    |i: int| windows@[i].index@,
                ),
            decreases ws.len() - j,
        {
            let ghost prevout = out@;
            out.push(ws[j].index.clone());
            proof {
                let m = g[k as int].1;
                assert(strings_view(out@) =~= strings_view(prevout).push(ws@[j as int].index@));
                assert(*ws@[j as int] == windows@[m[j as int]]);
                assert(m.take(j as int + 1) =~= m.take(j as int).push(m[j as int]));
                assert(m.take(j as int + 1).map_values(|i: int| windows@[i].index@) =~= m.take(
                    j as int,
                ).map_values(|i: int| windows@[i].index@).push(windows@[m[j as int]].index@));
                assert(strings_view(out@) =~= before + m.take(j as int + 1).map_values(
                    |i: int| windows@[i].index@,
                ));
            }
            j += 1;
        }
        proof {
            let m = g[k as int].1;
            assert(m.take(ws.len() as int) =~= m);
            let t = g.take(k as int + 1);
            assert(t.drop_last() =~= g.take(k as int));
            assert(flatten(t).map_values(|i: int| windows@[i].index@) =~= flatten(
                g.take(k as int),
            ).map_values(|i: int| windows@[i].index@) + m.map_values(|i: int| windows@[i].index@));
        }
        k += 1;
    }
    assert(g.take(groups.len() as int) =~= g);
    out
}

/// The window indexes in sidebar (grouped) order.
pub fn sidebar_window_order(windows: &[Window]) -> (r: Vec<String>)
    ensures
        strings_view(r@) == sidebar_order_spec(windows@, seq![]),
{
    let layout = SectionLayout { sections: Vec::new() };
    assert(layout@ =~= Seq::<SectionView>::empty());
    sidebar_window_order_with_sections(windows, &layout)
}

/// The (pane, path) pairs of the windows that have both.
pub open spec fn pr_targets_spec(ws: Seq<Window>) -> Seq<(Seq<char>, Seq<char>)>
    decreases ws.len(),
{
    if ws.len() == 0 {
        seq![]
    } else {
        let prev = pr_targets_spec(ws.drop_last());
        let w = ws.last();
        if w.pane@.len() > 0 && w.path@.len() > 0 {
            prev.push((w.pane@, w.path@))
        } else {
            prev
        }
    }
}

pub fn pr_refresh_targets(windows: &[Window]) -> (r: Vec<(String, String)>)
    ensures
        r@.map_values(|p: (String, String)| (p.0@, p.1@)) == pr_targets_spec(windows@),
{
    let mut out: Vec<(String, String)> = Vec::new();
    let mut i: usize = 0;
    while i < windows.len()
        invariant
            i <= windows.len(),
            out@.map_values(|p: (String, String)| (p.0@, p.1@)) == pr_targets_spec(
                windows@.take(i as int),
            ),
        decreases windows.len() - i,
    {
        let w = &windows[i];
        if !w.pane.as_str().is_empty() && !w.path.as_str().is_empty() {
            out.push((w.pane.clone(), w.path.clone()));
        }
        proof {
            let t = windows@.take(i as int + 1);
            assert(t.drop_last() =~= windows@.take(i as int));
            assert(out@.map_values(|p: (String, String)| (p.0@, p.1@)) =~= pr_targets_spec(t));
        }
        i += 1;
    }
    assert(windows@.take(windows.len() as int) =~= windows@);
    out
}

#[derive(Debug, Clone, Copy, PartialEq, Eq, Structural)]
pub enum Direction {
    Prev,
    Next,
}

/// The first position of `x` in `s`.
pub open spec fn position_of(s: Seq<Seq<char>>, x: Seq<char>, k: int) -> Option<int>
    decreases s.len() - k,
{
    if k < 0 || k >= s.len() {
        None
    } else if s[k] == x {
        Some(k)
    } else {
        position_of(s, x, k + 1)
    }
}

/// The entry next to `current` in `order`, wrapping around; the first entry
/// when `current` is absent, and nothing when `order` is empty.
pub open spec fn adjacent_spec(order: Seq<Seq<char>>, current: Seq<char>, dir: Direction) -> Seq<char> {
    if order.len() == 0 {
        seq![]
    } else {
        match position_of(order, current, 0) {
            None => order[0],
            Some(i) => match dir {
                Direction::Prev => order[(i + order.len() - 1) % (order.len() as int)],
                Direction::Next => order[(i + 1) % (order.len() as int)],
            },
        }
    }
}

pub proof fn lemma_position_of(s: Seq<Seq<char>>, x: Seq<char>, k: int)
    requires
        0 <= k,
    ensures
        position_of(s, x, k) matches Some(i) ==> k <= i < s.len() && s[i] == x,
    decreases s.len() - k,
{
    if k < s.len() && s[k] != x {
        lemma_position_of(s, x, k + 1);
    }
}

/// The window index adjacent to `current` in sidebar order, wrapping around.
pub fn adjacent_sidebar_window_with_sections(
    windows: &[Window],
    layout: &SectionLayout,
    current: &str,
    dir: Direction,
) -> (r: String)
    ensures
        r@ == adjacent_spec(sidebar_order_spec(windows@, layout@), current@, dir),
{
    let order = sidebar_window_order_with_sections(windows, layout);
    let ghost ov = strings_view(order@);
    if order.len() == 0 {
        return String::new();
    }
    let cur = String::from_str(current);
    let mut k: usize = 0;
    while k < order.len() && !(order[k] == cur)
        invariant
            k <= order.len(),
            ov == strings_view(order@),
            cur@ == current@,
            position_of(ov, current@, 0) == position_of(ov, current@, k as int),
        decreases order.len() - k,
    {
        k += 1;
    }
    let found: Option<usize> = if k < order.len() {
        Some(k)
    } else {
        None
    };
    proof {
        lemma_position_of(ov, current@, 0);
    }
    let len = order.len();
    match found {
        None => {
            assert(position_of(ov, current@, k as int) is None);
            order[0].clone()
        },
        Some(i) => {
            assert(position_of(ov, current@, 0) == Some(i as int));
            let next = match dir {
                Direction::Prev => if i == 0 {
                    len - 1
                } else {
                    i - 1
                },
                Direction::Next => if i + 1 == len {
                    0
                } else {
                    i + 1
                },
            };
            proof {
                let l = len as int;
                let ii = i as int;
                if ii == 0 {
                    assert((ii + l - 1) % l == l - 1) by (nonlinear_arith)
                        requires
                            ii == 0,
                            l > 0,
                    ;
                } else {
                    assert((ii + l - 1) % l == ii - 1) by (nonlinear_arith)
                        requires
                            0 < ii < l,
                    ;
                }
                if ii + 1 == l {
                    assert((ii + 1) % l == 0) by (nonlinear_arith)
                        requires
                            ii + 1 == l,
                            l > 0,
                    ;
                } else {
                    assert((ii + 1) % l == ii + 1) by (nonlinear_arith)
                        requires
                            0 <= ii,
                            ii + 1 < l,
                    ;
                }
            }
            order[next].clone()
        },
    }
}

/// The window index adjacent to `current` in sidebar order, wrapping around.
pub fn adjacent_sidebar_window(windows: &[Window], current: &str, dir: Direction) -> (r: String)
    ensures
        r@ == adjacent_spec(sidebar_order_spec(windows@, seq![]), current@, dir),
{
    let layout = SectionLayout { sections: Vec::new() };
    assert(layout@ =~= Seq::<SectionView>::empty());
    adjacent_sidebar_window_with_sections(windows, &layout, current, dir)
}

// ---------------------------------------------------------------------------
// Commands and names
// ---------------------------------------------------------------------------

/// The command with surrounding whitespace and leading dashes (login
/// shells) removed.
pub open spec fn bare_command(command: Seq<char>) -> Seq<char> {
    trim_start_char(trim_ws(command), '-')
}

pub open spec fn is_herdr_spec(command: Seq<char>) -> bool {
    bare_command(command) == "herdr"@
}

pub open spec fn is_ssh_spec(command: Seq<char>) -> bool {
    let b = bare_command(command);
    b == "ssh"@ || b == "mosh"@ || b == "mosh-client"@ || b == "autossh"@
}

fn bare_command_chars(command: &str) -> (r: Vec<char>)
    ensures
        r@ == bare_command(command@),
{
    let v = chars_of(command);
    let (a, b) = trim_bounds(&v);
    let (c, _d) = trim_char_bounds(&v, a, b, '-');
    sub_vec(&v, c, b)
}

pub fn is_herdr_command(command: &str) -> (r: bool)
    ensures
        r == is_herdr_spec(command@),
{
    chars_eq(&bare_command_chars(command), &chars_of("herdr"))
}

pub fn is_ssh_command(command: &str) -> (r: bool)
    ensures
        r == is_ssh_spec(command@),
{
    let b = bare_command_chars(command);
    chars_eq(&b, &chars_of("ssh")) || chars_eq(&b, &chars_of("mosh")) || chars_eq(
        &b,
        &chars_of("mosh-client"),
    ) || chars_eq(&b, &chars_of("autossh"))
}


/// `Path::file_name`: the last component of a path when it is a normal
/// one, looking past empty and `.` pieces.
pub open spec fn last_normal(pieces: Seq<Seq<char>>) -> Option<Seq<char>>
    decreases pieces.len(),
{
    if pieces.len() == 0 {
        None
    } else {
        let p = pieces.last();
        if p.len() == 0 || p == seq!['.'] {
            last_normal(pieces.drop_last())
        } else if p == seq!['.', '.'] {
            None
        } else {
            Some(p)
        }
    }
}

pub open spec fn file_name(path: Seq<char>) -> Option<Seq<char>> {
    last_normal(split_char(path, '/'))
}

/// The file name of the path in `v`.
fn file_name_chars(v: &[char]) -> (r: Option<Vec<char>>)
    ensures
        match file_name(v@) {
            Some(f) => r matches Some(x) && x@ == f,
            None => r is None,
        },
{
    let pieces = split_bounds(v, '/');
    let ghost ps = split_char(v@, '/');
    let mut k = pieces.len();
    assert(ps.take(k as int) =~= ps);
    while k > 0
        invariant
            k <= pieces.len(),
            ps == split_char(v@, '/'),
            pieces@.len() == ps.len(),
            forall|q: int|
                0 <= q < pieces@.len() ==> {
                    &&& (#[trigger] pieces@[q]).0 <= pieces@[q].1 <= v@.len()
                    &&& v@.subrange(pieces@[q].0 as int, pieces@[q].1 as int) == ps[q]
                },
            file_name(v@) == last_normal(ps.take(k as int)),
        decreases k,
    {
        let (a, b) = pieces[k - 1];
        let p = sub_vec(v, a, b);
        proof {
            let t = ps.take(k as int);
            assert(t.drop_last() =~= ps.take(k - 1));
            assert(t.last() == p@);
        }
        if p.len() == 0 || (p.len() == 1 && p[0] == '.') {
            proof {
                if p.len() == 1 {
                    assert(p@ =~= seq!['.']);
                }
            }
            k -= 1;
        } else if p.len() == 2 && p[0] == '.' && p[1] == '.' {
            assert(p@ =~= seq!['.', '.']);
            return None;
        } else {
            proof {
                if p@ == seq!['.'] {
                    assert(p.len() == 1);
                }
                if p@ == seq!['.', '.'] {
                    assert(p.len() == 2);
                }
            }
            return Some(p);
        }
    }
    None
}

/// ssh options that consume the following argument.
pub open spec fn is_value_flag(c: char) -> bool {
    c == 'B' || c == 'b' || c == 'c' || c == 'D' || c == 'E' || c == 'e' || c == 'F' || c == 'I'
        || c == 'i' || c == 'J' || c == 'L' || c == 'l' || c == 'm' || c == 'O' || c == 'o' || c
        == 'p' || c == 'Q' || c == 'R' || c == 'S' || c == 'W' || c == 'w'
}

fn value_flag(c: char) -> (r: bool)
    ensures
        r == is_value_flag(c),
{
    c == 'B' || c == 'b' || c == 'c' || c == 'D' || c == 'E' || c == 'e' || c == 'F' || c == 'I'
        || c == 'i' || c == 'J' || c == 'L' || c == 'l' || c == 'm' || c == 'O' || c == 'o' || c
        == 'p' || c == 'Q' || c == 'R' || c == 'S' || c == 'W' || c == 'w'
}

/// Every leading copy of `p` removed (`str::trim_start_matches`).
pub open spec fn strip_all_prefix(s: Seq<char>, p: Seq<char>) -> Seq<char>
    decreases s.len(),
{
    if p.len() > 0 && starts_with(s, p) {
        strip_all_prefix(s.skip(p.len() as int), p)
    } else {
        s
    }
}

/// The part after the last `c` (`rsplit(c).next()`).
pub open spec fn after_last(s: Seq<char>, c: char) -> Seq<char>
    decreases s.len(),
{
    if s.len() == 0 {
        s
    } else if s.last() == c {
        seq![]
    } else {
        after_last(s.drop_last(), c).push(s.last())
    }
}

/// The part before the first `/` or `:`.
pub open spec fn before_separator(s: Seq<char>) -> Seq<char>
    decreases s.len(),
{
    if s.len() == 0 || s[0] == '/' || s[0] == ':' {
        seq![]
    } else {
        seq![s[0]] + before_separator(s.drop_first())
    }
}

/// The host named by an ssh destination token: any `ssh://` scheme, user
/// and path or port dropped.
pub open spec fn ssh_dest_host(t: Seq<char>) -> Seq<char> {
    before_separator(after_last(strip_all_prefix(t, "ssh://"@), '@'))
}

/// The first destination among ssh arguments, skipping options and the
/// values of options that take one.
pub open spec fn ssh_scan(toks: Seq<Seq<char>>) -> Option<Seq<char>>
    decreases toks.len(),
{
    if toks.len() == 0 {
        None
    } else {
        let t = toks[0];
        if t.len() > 0 && t[0] == '-' {
            if t.len() == 2 && is_value_flag(t[1]) && toks.len() >= 2 {
                ssh_scan(toks.skip(2))
            } else {
                ssh_scan(toks.skip(1))
            }
        } else {
            let host = ssh_dest_host(t);
            if host.len() > 0 {
                Some(host)
            } else {
                ssh_scan(toks.skip(1))
            }
        }
    }
}

pub open spec fn ssh_host_spec(line: Seq<char>) -> Option<Seq<char>> {
    let toks = words(line);
    if toks.len() == 0 {
        None
    } else {
        match file_name(toks[0]) {
            Some(f) => if is_ssh_spec(f) {
                ssh_scan(toks.skip(1))
            } else {
                None
            },
            None => None,
        }
    }
}

fn strip_ssh_scheme(t: &Vec<char>) -> (r: usize)
    ensures
        r <= t@.len(),
        t@.skip(r as int) == strip_all_prefix(t@, "ssh://"@),
{
    let scheme = chars_of("ssh://");
    proof {
        reveal_strlit("ssh://");
    }
    let mut i: usize = 0;
    assert(t@.skip(0) =~= t@);
    while t.len() - i >= 6 && crate::text::matches_at(t, &scheme, i)
        invariant
            i <= t.len(),
            scheme@ == "ssh://"@,
            scheme@.len() == 6,
            strip_all_prefix(t@, "ssh://"@) == strip_all_prefix(t@.skip(i as int), "ssh://"@),
        decreases t.len() - i,
    {
        proof {
            let u = t@.skip(i as int);
            assert(u.take(6) =~= t@.subrange(i as int, i + 6));
            assert(u.skip(6) =~= t@.skip(i + 6));
        }
        i += 6;
    }
    proof {
        let u = t@.skip(i as int);
        if starts_with(u, "ssh://"@) {
            assert(u.take(6) =~= t@.subrange(i as int, i + 6));
        }
    }
    i
}

fn ssh_dest_host_chars(t: &Vec<char>) -> (r: Vec<char>)
    ensures
        r@ == ssh_dest_host(t@),
{
    let a = strip_ssh_scheme(t);
    // after the last '@'
    let mut b = t.len();
    let ghost s = t@.skip(a as int);
    assert(s.take(s.len() as int) =~= s);
    while b > a && t[b - 1] != '@'
        invariant
            a <= b <= t.len(),
            s == t@.skip(a as int),
            after_last(s, '@') == after_last(s.take(b - a), '@') + t@.subrange(b as int, t.len() as int),
        decreases b,
    {
        proof {
            let u = s.take(b - a);
            assert(u.last() == t@[b - 1]);
            assert(u.drop_last() =~= s.take(b - a - 1));
            assert(t@.subrange(b - 1, t.len() as int) =~= seq![t@[b - 1]] + t@.subrange(b as int, t.len() as int));
        }
        b -= 1;
    }
    proof {
        let u = s.take(b - a);
        if b > a {
            assert(u.last() == '@');
        }
        assert(after_last(u, '@') =~= seq![]);
    }
    // before the first '/' or ':'
    let mut e = b;
    while e < t.len() && t[e] != '/' && t[e] != ':'
        invariant
            b <= e <= t.len(),
            forall|q: int| b <= q < e ==> t@[q] != '/' && t@[q] != ':',
        decreases t.len() - e,
    {
        e += 1;
    }
    proof {
        let w = t@.subrange(b as int, t.len() as int);
        assert(after_last(s, '@') =~= w);
        lemma_before_separator(w, e - b);
        assert(w.take(e - b) =~= t@.subrange(b as int, e as int));
    }
    sub_vec(t, b, e)
}

proof fn lemma_before_separator(w: Seq<char>, n: int)
    requires
        0 <= n <= w.len(),
        forall|q: int| 0 <= q < n ==> w[q] != '/' && w[q] != ':',
        n < w.len() ==> w[n] == '/' || w[n] == ':',
    ensures
        before_separator(w) == w.take(n),
    decreases n,
{
    if n > 0 {
        let d = w.drop_first();
        assert forall|q: int| 0 <= q < n - 1 implies d[q] != '/' && d[q] != ':' by {
            assert(d[q] == w[q + 1]);
        }
        if n < w.len() {
            assert(d[n - 1] == w[n]);
        }
        lemma_before_separator(d, n - 1);
        assert(w.take(n) =~= seq![w[0]] + d.take(n - 1));
    } else {
        assert(w.take(0) =~= Seq::<char>::empty());
    }
}

/// Pulls the destination host out of an `ssh` command line, e.g.
/// `ssh -p 2222 deploy@box.example.com uptime` -> `box.example.com`.
pub fn ssh_host_from_command_line(line: &str) -> (r: Option<String>)
    ensures
        match ssh_host_spec(line@) {
            Some(h) => r matches Some(x) && x@ == h,
            None => r is None,
        },
{
    let v = chars_of(line);
    let bounds = word_bounds(&v);
    let ghost toks = words(v@);
    if bounds.len() == 0 {
        return None;
    }
    let argv0 = sub_vec(&v, bounds[0].0, bounds[0].1);
    let name = match file_name_chars(&argv0) {
        Some(n) => n,
        None => return None,
    };
    if !is_ssh_command(string_of(&name).as_str()) {
        return None;
    }
    let mut t: usize = 1;
    assert(toks.skip(1) =~= toks.skip(t as int));
    while t < bounds.len()
        invariant
            1 <= t <= bounds.len(),
            toks == words(v@),
            bounds@.len() == toks.len(),
            forall|k: int|
                0 <= k < bounds@.len() ==> {
                    &&& (#[trigger] bounds@[k]).0 <= bounds@[k].1 <= v@.len()
                    &&& v@.subrange(bounds@[k].0 as int, bounds@[k].1 as int) == toks[k]
                },
            ssh_host_spec(line@) == ssh_scan(toks.skip(t as int)),
            v@ == line@,
        decreases bounds.len() - t,
    {
        let tok = sub_vec(&v, bounds[t].0, bounds[t].1);
        let ghost rest = toks.skip(t as int);
        assert(rest[0] == tok@);
        if tok.len() > 0 && tok[0] == '-' {
            if tok.len() == 2 && value_flag(tok[1]) && bounds.len() - t >= 2 {
                assert(rest.skip(2) =~= toks.skip(t + 2));
                t += 2;
            } else {
                assert(rest.skip(1) =~= toks.skip(t + 1));
                t += 1;
            }
        } else {
            let host = ssh_dest_host_chars(&tok);
            if host.len() > 0 {
                return Some(string_of(&host));
            }
            assert(rest.skip(1) =~= toks.skip(t + 1));
            t += 1;
        }
    }
    assert(toks.skip(t as int).len() == 0);
    None
}

/// The display name for a window: a bare `Python` pane becomes
/// `<directory>:<command>`.
pub open spec fn display_name_spec(tmux_name: Seq<char>, command: Seq<char>, path: Seq<char>) -> Seq<char> {
    if command == "Python"@ || ends_with(tmux_name, ":Python"@) {
        let base = match file_name(path) {
            Some(f) => if f.len() > 0 {
                f
            } else {
                split_char(tmux_name, ':')[0]
            },
            None => split_char(tmux_name, ':')[0],
        };
        let c = trim_ws(command);
        base + seq![':'] + (if c.len() == 0 {
            "pane"@
        } else {
            c
        })
    } else {
        tmux_name
    }
}

pub fn window_display_name(tmux_name: &str, command: &str, path: &str) -> (r: String)
    ensures
        r@ == display_name_spec(tmux_name@, command@, path@),
{
    let cmd = chars_of(command);
    let name = chars_of(tmux_name);
    if chars_eq(&cmd, &chars_of("Python")) || ends_with_chars(&name, &chars_of(":Python")) {
        let base = match file_name_chars(&chars_of(path)) {
            Some(f) => if f.len() > 0 {
                f
            } else {
                let b = split_bounds(&name, ':');
                sub_vec(&name, b[0].0, b[0].1)
            },
            None => {
                let b = split_bounds(&name, ':');
                sub_vec(&name, b[0].0, b[0].1)
            },
        };
        let mut out = string_of(&base);
        push_char(&mut out, ':');
        let (a, z) = trim_bounds(&cmd);
        if a == z {
            out.append("pane");
        } else {
            crate::text::push_range(&mut out, &cmd, a, z);
        }
        return out;
    }
    String::from_str(tmux_name)
}

// ---------------------------------------------------------------------------
// Text fitting
// ---------------------------------------------------------------------------

/// The most characters a detail line keeps.
pub open spec fn clip_limit(width: usize) -> int {
    let w = if width >= 5 {
        width - 5
    } else {
        0
    };
    if w > DETAIL_MIN {
        w
    } else {
        DETAIL_MIN as int
    }
}

pub open spec fn clipped_spec(text: Seq<char>, width: usize) -> Seq<char> {
    let t = trim_ws(text);
    let m = clip_limit(width);
    if t.len() <= m {
        t
    } else if m == 0 {
        seq!['…']
    } else {
        trim_end_ws(t.take(m - 1)) + seq!['…']
    }
}

/// Clips text to the sidebar width, appending an ellipsis when truncated.
pub fn clipped_text(text: &str, width: usize) -> (r: String)
    ensures
        r@ == clipped_spec(text@, width),
{
    let v = chars_of(text);
    let (a, b) = trim_bounds(&v);
    let w = width.saturating_sub(3 + 2);
    let max_len = if DETAIL_MIN > w {
        DETAIL_MIN
    } else {
        w
    };
    if b - a <= max_len {
        return string_of_range(&v, a, b);
    }
    if max_len == 0 {
        let mut out = String::new();
        push_char(&mut out, '…');
        return out;
    }
    let kept = sub_vec(&v, a, a + max_len - 1);
    let mut e = kept.len();
    assert(kept@.take(kept.len() as int) =~= kept@);
    while e > 0 && is_whitespace(kept[e - 1])
        invariant
            e <= kept.len(),
            trim_end_ws(kept@) == trim_end_ws(kept@.take(e as int)),
        decreases e,
    {
        assert(kept@.take(e as int).drop_last() =~= kept@.take(e - 1));
        e -= 1;
    }
    proof {
        assert(kept@.take(kept.len() as int) =~= kept@);
        if e > 0 {
            assert(kept@.take(e as int).last() == kept@[e - 1]);
        }
        assert(kept@ =~= v@.subrange(a as int, b as int).take(max_len - 1));
    }
    let mut out = string_of_range(&kept, 0, e);
    push_char(&mut out, '…');
    assert(out@ =~= clipped_spec(text@, width));
    out
}

pub open spec fn icon_spec(w: Window) -> Seq<char> {
    if w.ready {
        ICON_READY@
    } else {
        ICON_EMPTY@
    }
}

pub fn window_icon(w: &Window) -> (r: &'static str)
    ensures
        r@ == icon_spec(*w),
{
    if w.ready {
        ICON_READY
    } else {
        ICON_EMPTY
    }
}

/// The action menu entries, with `open PR` first when a PR URL is known.
pub open spec fn menu_labels(has_pr_url: bool) -> Seq<Seq<char>> {
    let rest = seq!["refresh PR"@, "rename"@, "kill"@, "kill + rm worktree"@, "clear ready"@];
    if has_pr_url {
        seq!["open PR"@] + rest
    } else {
        rest
    }
}

pub fn action_menu_labels(has_pr_url: bool) -> (r: Vec<&'static str>)
    ensures
        r@.map_values(|s: &'static str| s@) == menu_labels(has_pr_url),
{
    let mut v: Vec<&'static str> = Vec::new();
    if has_pr_url {
        v.push("open PR");
    }
    v.push("refresh PR");
    v.push("rename");
    v.push("kill");
    v.push("kill + rm worktree");
    v.push("clear ready");
    assert(v@.map_values(|s: &'static str| s@) =~= menu_labels(has_pr_url));
    v
}

} // verus!
