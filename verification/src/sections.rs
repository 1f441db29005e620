//! Persistent custom sidebar sections.
//!
//! Agents can create named sections and assign tmux windows to them. Friendly
//! tab references are resolved elsewhere; this module stores stable tmux
//! `window_id`s so assignments survive window renumbering. Reading and writing
//! the file stays with the caller: this module turns a layout into its JSON
//! text and back.
use vstd::prelude::*;

use crate::json::{escape_seq, push_escaped};
use crate::text::{
    chars_of, find_char, find_char_from, find_char_in, find_from, find_in, find_seq,
    lemma_find_char_from_props, lemma_find_char_from_shift, lemma_find_from_props,
    lemma_find_from_shift, lemma_trim_ws_idempotent, push_char, sub_vec, trim, trim_ws,
};

verus! {

#[derive(Debug, Clone, PartialEq, Eq)]
pub struct SectionLayout {
    pub sections: Vec<Section>,
}

#[derive(Debug, Clone, PartialEq, Eq)]
pub struct Section {
    pub name: String,
    pub windows: Vec<String>,
}

/// The mathematical content of a section: its name and its window ids.
#[verifier::ext_equal]
pub struct SectionView {
    pub name: Seq<char>,
    pub windows: Seq<Seq<char>>,
}

pub open spec fn string_views(v: Seq<String>) -> Seq<Seq<char>> {
    v.map_values(|s: String| s@)
}

impl View for Section {
    type V = SectionView;

    open spec fn view(&self) -> SectionView {
        SectionView { name: self.name@, windows: string_views(self.windows@) }
    }
}

impl View for SectionLayout {
    type V = Seq<SectionView>;

    open spec fn view(&self) -> Seq<SectionView> {
        self.sections@.map_values(|s: Section| s@)
    }
}

impl Default for SectionLayout {
    fn default() -> (r: SectionLayout)
        ensures
            r@ == Seq::<SectionView>::empty(),
    {
        let r = SectionLayout { sections: Vec::new() };
        assert(r@ =~= Seq::<SectionView>::empty());
        r
    }
}

impl Default for Section {
    fn default() -> (r: Section)
        ensures
            r@.name == Seq::<char>::empty(),
            r@.windows == Seq::<Seq<char>>::empty(),
    {
        let r = Section { name: String::new(), windows: Vec::new() };
        assert(r@.windows =~= Seq::<Seq<char>>::empty());
        r
    }
}

// ---------------------------------------------------------------------------
// The model of each operation
// ---------------------------------------------------------------------------

/// The first section named `name`.
pub open spec fn first_named_from(l: Seq<SectionView>, name: Seq<char>, k: int) -> Option<int>
    decreases l.len() - k,
{
    if k < 0 || k >= l.len() {
        None
    } else if l[k].name == name {
        Some(k)
    } else {
        first_named_from(l, name, k + 1)
    }
}

pub open spec fn first_named(l: Seq<SectionView>, name: Seq<char>) -> Option<int> {
    first_named_from(l, name, 0)
}

pub open spec fn has_section(l: Seq<SectionView>, name: Seq<char>) -> bool {
    exists|k: int| 0 <= k < l.len() && l[k].name == name
}

/// `create_section`: a new empty section named by the trimmed name, unless
/// that is empty or already taken.
pub open spec fn create_spec(l: Seq<SectionView>, raw: Seq<char>) -> Seq<SectionView> {
    let n = trim_ws(raw);
    if n.len() == 0 || has_section(l, n) {
        l
    } else {
        l.push(SectionView { name: n, windows: seq![] })
    }
}

/// `delete_section`: every section named exactly `name` goes.
pub open spec fn delete_spec(l: Seq<SectionView>, name: Seq<char>) -> Seq<SectionView>
    decreases l.len(),
{
    if l.len() == 0 {
        l
    } else {
        let rest = delete_spec(l.drop_last(), name);
        if l.last().name == name {
            rest
        } else {
            rest.push(l.last())
        }
    }
}

/// Every copy of `id` removed from a list of window ids.
pub open spec fn remove_id(ws: Seq<Seq<char>>, id: Seq<char>) -> Seq<Seq<char>>
    decreases ws.len(),
{
    if ws.len() == 0 {
        ws
    } else {
        let rest = remove_id(ws.drop_last(), id);
        if ws.last() == id {
            rest
        } else {
            rest.push(ws.last())
        }
    }
}

/// Only the ids that are in `live`.
pub open spec fn keep_live(ws: Seq<Seq<char>>, live: Seq<Seq<char>>) -> Seq<Seq<char>>
    decreases ws.len(),
{
    if ws.len() == 0 {
        ws
    } else {
        let rest = keep_live(ws.drop_last(), live);
        if live.contains(ws.last()) {
            rest.push(ws.last())
        } else {
            rest
        }
    }
}

/// `id` removed from every section.
pub open spec fn remove_everywhere(l: Seq<SectionView>, id: Seq<char>) -> Seq<SectionView> {
    l.map_values(|s: SectionView| SectionView { name: s.name, windows: remove_id(s.windows, id) })
}

/// `add_window`: the trimmed id leaves every section and joins the end of the
/// first section with the trimmed name, which is created when missing.
pub open spec fn add_spec(l: Seq<SectionView>, raw_name: Seq<char>, raw_id: Seq<char>) -> Seq<
    SectionView,
> {
    let n = trim_ws(raw_name);
    let id = trim_ws(raw_id);
    if n.len() == 0 || id.len() == 0 {
        l
    } else {
        let c = create_spec(remove_everywhere(l, id), n);
        match first_named(c, n) {
            Some(p) => c.update(
                p,
                SectionView { name: c[p].name, windows: c[p].windows.push(id) },
            ),
            None => c,
        }
    }
}

/// `remove_window`: `id` leaves the first section named `name`, if any.
pub open spec fn remove_window_spec(l: Seq<SectionView>, name: Seq<char>, id: Seq<char>) -> Seq<
    SectionView,
> {
    match first_named(l, name) {
        Some(p) => l.update(p, SectionView { name: l[p].name, windows: remove_id(l[p].windows, id) }),
        None => l,
    }
}

/// `prune_missing`: every section keeps only live window ids.
pub open spec fn prune_spec(l: Seq<SectionView>, live: Seq<Seq<char>>) -> Seq<SectionView> {
    l.map_values(|s: SectionView| SectionView { name: s.name, windows: keep_live(s.windows, live) })
}

pub proof fn lemma_first_named_from(l: Seq<SectionView>, name: Seq<char>, k: int)
    requires
        0 <= k,
    ensures
        match first_named_from(l, name, k) {
            Some(p) => k <= p < l.len() && l[p].name == name && forall|q: int|
                k <= q < p ==> l[q].name != name,
            None => forall|q: int| k <= q < l.len() ==> l[q].name != name,
        },
    decreases l.len() - k,
{
    if k < l.len() && l[k].name != name {
        lemma_first_named_from(l, name, k + 1);
    }
}

// ---------------------------------------------------------------------------
// Executable helpers
// ---------------------------------------------------------------------------

pub(crate) fn clone_strings(v: &Vec<String>) -> (r: Vec<String>)
    ensures
        r@ == v@,
        string_views(r@) == string_views(v@),
{
    let mut r: Vec<String> = Vec::new();
    let mut i: usize = 0;
    while i < v.len()
        invariant
            i <= v.len(),
            r@ == v@.take(i as int),
        decreases v.len() - i,
    {
        r.push(v[i].clone());
        assert(v@.take(i as int + 1) =~= v@.take(i as int).push(v@[i as int]));
        i += 1;
    }
    assert(v@.take(v.len() as int) =~= v@);
    r
}

fn without_id(v: &Vec<String>, id: &String) -> (r: Vec<String>)
    ensures
        string_views(r@) == remove_id(string_views(v@), id@),
{
    let mut r: Vec<String> = Vec::new();
    let mut i: usize = 0;
    while i < v.len()
        invariant
            i <= v.len(),
            string_views(r@) == remove_id(string_views(v@.take(i as int)), id@),
        decreases v.len() - i,
    {
        let ghost before = r@;
        if !(v[i] == *id) {
            r.push(v[i].clone());
        }
        proof {
            let t = string_views(v@.take(i as int + 1));
            assert(v@.take(i as int + 1) =~= v@.take(i as int).push(v@[i as int]));
            assert(t.drop_last() =~= string_views(v@.take(i as int)));
            assert(string_views(r@) =~= remove_id(t, id@));
        }
        i += 1;
    }
    assert(v@.take(v.len() as int) =~= v@);
    r
}

pub(crate) fn string_list_contains(live: &[String], id: &String) -> (r: bool)
    ensures
        r == string_views(live@).contains(id@),
{
    let mut i: usize = 0;
    while i < live.len()
        invariant
            i <= live.len(),
            forall|k: int| 0 <= k < i ==> live@[k]@ != id@,
        decreases live.len() - i,
    {
        if live[i] == *id {
            assert(string_views(live@)[i as int] == id@);
            return true;
        }
        i += 1;
    }
    proof {
        if string_views(live@).contains(id@) {
            let k = choose|k: int| 0 <= k < string_views(live@).len() && string_views(live@)[k] == id@;
            assert(live@[k]@ == id@);
        }
    }
    false
}

fn only_live(v: &Vec<String>, live: &[String]) -> (r: Vec<String>)
    ensures
        string_views(r@) == keep_live(string_views(v@), string_views(live@)),
{
    let mut r: Vec<String> = Vec::new();
    let mut i: usize = 0;
    while i < v.len()
        invariant
            i <= v.len(),
            string_views(r@) == keep_live(string_views(v@.take(i as int)), string_views(live@)),
        decreases v.len() - i,
    {
        if string_list_contains(live, &v[i]) {
            r.push(v[i].clone());
        }
        proof {
            let t = string_views(v@.take(i as int + 1));
            assert(v@.take(i as int + 1) =~= v@.take(i as int).push(v@[i as int]));
            assert(t.drop_last() =~= string_views(v@.take(i as int)));
            assert(string_views(r@) =~= keep_live(t, string_views(live@)));
        }
        i += 1;
    }
    assert(v@.take(v.len() as int) =~= v@);
    r
}

impl SectionLayout {
    /// Index of the first section whose name is `name`.
    fn position_named(&self, name: &String) -> (r: Option<usize>)
        ensures
            r matches Some(p) ==> first_named(self@, name@) == Some(p as int),
            r is None ==> first_named(self@, name@) is None,
    {
        let mut k: usize = 0;
        while k < self.sections.len()
            invariant
                k <= self.sections.len(),
                first_named(self@, name@) == first_named_from(self@, name@, k as int),
            decreases self.sections.len() - k,
        {
            if self.sections[k].name == *name {
                return Some(k);
            }
            k += 1;
        }
        None
    }

    /// Adds an empty section named `name` (trimmed) unless the name is empty
    /// or a section with that name already exists.
    pub fn create_section(&mut self, name: &str)
        ensures
            final(self)@ == create_spec(old(self)@, name@),
    {
        let n = trim(name);
        if n.as_str().is_empty() {
            return;
        }
        let found = self.position_named(&n);
        proof {
            lemma_first_named_from(self@, n@, 0);
        }
        if found.is_some() {
            return;
        }
        let ghost nv = n@;
        self.sections.push(Section { name: n, windows: Vec::new() });
        proof {
            assert(string_views(Seq::<String>::empty()) =~= Seq::<Seq<char>>::empty());
            assert(self@ =~= old(self)@.push(SectionView { name: nv, windows: seq![] }));
        }
    }

    /// Deletes every section named `name`.
    pub fn delete_section(&mut self, name: &str)
        ensures
            final(self)@ == delete_spec(old(self)@, name@),
    {
        let name = String::from_str(name);
        let mut kept: Vec<Section> = Vec::new();
        let mut i: usize = 0;
        while i < self.sections.len()
            invariant
                i <= self.sections.len(),
                self@ == old(self)@,
                kept@.map_values(|s: Section| s@) == delete_spec(
                    self@.take(i as int),
                    name@,
                ),
            decreases self.sections.len() - i,
        {
            if !(self.sections[i].name == name) {
                let s = Section {
                    name: self.sections[i].name.clone(),
                    windows: clone_strings(&self.sections[i].windows),
                };
                kept.push(s);
            }
            proof {
                let t = self@.take(i as int + 1);
                assert(t.drop_last() =~= self@.take(i as int));
                assert(kept@.map_values(|s: Section| s@) =~= delete_spec(t, name@));
            }
            i += 1;
        }
        assert(self@.take(self.sections.len() as int) =~= self@);
        self.sections = kept;
    }

    /// Moves `window_id` (trimmed) into the section named `section_name`
    /// (trimmed), creating the section when needed and removing the id from
    /// every other section.
    pub fn add_window(&mut self, section_name: &str, window_id: &str)
        ensures
            final(self)@ == add_spec(old(self)@, section_name@, window_id@),
    {
        let name = trim(section_name);
        let id = trim(window_id);
        if name.as_str().is_empty() || id.as_str().is_empty() {
            return;
        }
        let mut i: usize = 0;
        while i < self.sections.len()
            invariant
                i <= self.sections.len(),
                self@.len() == old(self)@.len(),
                forall|k: int| i <= k < self@.len() ==> self@[k] == old(self)@[k],
                forall|k: int|
                    0 <= k < i ==> self@[k] == remove_everywhere(old(self)@, id@)[k],
            decreases self.sections.len() - i,
        {
            let s = Section {
                name: self.sections[i].name.clone(),
                windows: without_id(&self.sections[i].windows, &id),
            };
            let ghost prev = self@;
            assert(s@ == remove_everywhere(old(self)@, id@)[i as int]);
            self.sections.set(i, s);
            assert(self@ =~= prev.update(i as int, s@));
            i += 1;
        }
        assert(self@ =~= remove_everywhere(old(self)@, id@));
        proof {
            lemma_trim_ws_idempotent(section_name@);
        }
        self.create_section(name.as_str());
        let found = self.position_named(&name);
        proof {
            lemma_first_named_from(self@, name@, 0);
        }
        match found {
            Some(p) => {
                let ghost c = self@;
                let mut ws = clone_strings(&self.sections[p].windows);
                ws.push(id);
                let s = Section { name: self.sections[p].name.clone(), windows: ws };
                self.sections.set(p, s);
                proof {
                    assert(string_views(ws@) =~= c[p as int].windows.push(id@));
                    assert(self@ =~= add_spec(old(self)@, section_name@, window_id@));
                }
            },
            None => {},
        }
    }
}


// ---------------------------------------------------------------------------
// JSON text
// ---------------------------------------------------------------------------

/// The quoted, comma-separated window ids of a section.
pub open spec fn window_list_text(ws: Seq<Seq<char>>) -> Seq<char>
    decreases ws.len(),
{
    if ws.len() == 0 {
        seq![]
    } else {
        window_list_text(ws.drop_last()) + (if ws.len() > 1 {
            ", "@
        } else {
            seq![]
        }) + "\""@ + escape_seq(ws.last()) + "\""@
    }
}

/// One section object, with its leading line break.
pub open spec fn section_text(s: SectionView) -> Seq<char> {
    "\n    {\n"@ + "      \"name\": \""@ + escape_seq(s.name) + "\",\n"@ + "      \"windows\": ["@
        + window_list_text(s.windows) + "]\n    }"@
}

/// The section objects, comma-separated.
pub open spec fn sections_text(l: Seq<SectionView>) -> Seq<char>
    decreases l.len(),
{
    if l.len() == 0 {
        seq![]
    } else {
        sections_text(l.drop_last()) + (if l.len() > 1 {
            ","@
        } else {
            seq![]
        }) + section_text(l.last())
    }
}

/// The JSON document `to_json` writes.
pub open spec fn layout_json(l: Seq<SectionView>) -> Seq<char> {
    "{\n  \"sections\": ["@ + sections_text(l) + (if l.len() > 0 {
        "\n  "@
    } else {
        seq![]
    }) + "]\n}\n"@
}

pub open spec fn unescape_char(c: char) -> char {
    if c == 'n' {
        '\n'
    } else if c == 't' {
        '\t'
    } else {
        c
    }
}

/// Reads a JSON string body from position `i` of `t` (the opening quote
/// already consumed): the decoded text and the position after the closing
/// quote, or `None` when no closing quote comes.
pub open spec fn scan_string(t: Seq<char>, i: int, escaped: bool, acc: Seq<char>) -> Option<
    (Seq<char>, int),
>
    decreases t.len() - i,
{
    if i < 0 || i >= t.len() {
        None
    } else if escaped {
        scan_string(t, i + 1, false, acc.push(unescape_char(t[i])))
    } else if t[i] == '\\' {
        scan_string(t, i + 1, true, acc)
    } else if t[i] == '"' {
        Some((acc, i + 1))
    } else {
        scan_string(t, i + 1, false, acc.push(t[i]))
    }
}

/// The string value that follows the next `:` of `t`.
pub open spec fn string_after_colon(t: Seq<char>) -> Option<Seq<char>> {
    match find_char(t, ':') {
        Some(c) => if 0 <= c < t.len() {
            let a = t.skip(c + 1);
            match find_char(a, '"') {
                Some(q) => if 0 <= q < a.len() {
                    match scan_string(a.skip(q + 1), 0, false, seq![]) {
                        Some(r) => Some(r.0),
                        None => None,
                    }
                } else {
                    None
                },
                None => None,
            }
        } else {
            None
        },
        None => None,
    }
}

/// The quoted strings of an array body, in order.
pub open spec fn string_values(body: Seq<char>) -> Seq<Seq<char>>
    decreases body.len(),
{
    match find_char(body, '"') {
        Some(q) => if 0 <= q < body.len() {
            let aq = body.skip(q + 1);
            match scan_string(aq, 0, false, seq![]) {
                Some(r) => if 0 < r.1 <= aq.len() {
                    seq![r.0] + string_values(aq.skip(r.1))
                } else {
                    seq![]
                },
                None => seq![],
            }
        } else {
            seq![]
        },
        None => seq![],
    }
}

/// The strings of the array that follows the next `:` of `t`: everything
/// between the first `[` after it and the first `]` after that.
pub open spec fn array_after_colon(t: Seq<char>) -> Seq<Seq<char>> {
    match find_char(t, ':') {
        Some(c) => if 0 <= c < t.len() {
            let a = t.skip(c + 1);
            match find_char(a, '[') {
                Some(o) => if 0 <= o < a.len() {
                    let b = a.skip(o + 1);
                    match find_char(b, ']') {
                        Some(e) => if 0 <= e < b.len() {
                            string_values(b.take(e))
                        } else {
                            seq![]
                        },
                        None => seq![],
                    }
                } else {
                    seq![]
                },
                None => seq![],
            }
        } else {
            seq![]
        },
        None => seq![],
    }
}

pub open spec fn name_key() -> Seq<char> {
    seq!['"', 'n', 'a', 'm', 'e', '"']
}

pub open spec fn windows_key() -> Seq<char> {
    seq!['"', 'w', 'i', 'n', 'd', 'o', 'w', 's', '"']
}

/// The sections `from_json` reads: for every `"name"` key, the string after
/// its colon and the array after the next `"windows"` key; reading stops at
/// the first key or value that is missing.
pub open spec fn parse_sections(t: Seq<char>) -> Seq<SectionView>
    decreases t.len(),
{
    match find_seq(t, name_key()) {
        Some(p) => if 0 <= p && p + 6 <= t.len() {
            let r1 = t.skip(p + 6);
            match string_after_colon(r1) {
                Some(name) => match find_seq(r1, windows_key()) {
                    Some(q) => if 0 <= q && q + 9 <= r1.len() {
                        let r2 = r1.skip(q + 9);
                        seq![SectionView { name: name, windows: array_after_colon(r2) }]
                            + parse_sections(r2)
                    } else {
                        seq![]
                    },
                    None => seq![],
                },
                None => seq![],
            }
        } else {
            seq![]
        },
        None => seq![],
    }
}

proof fn lemma_scan_string_bounds(t: Seq<char>, i: int, escaped: bool, acc: Seq<char>)
    requires
        0 <= i,
    ensures
        scan_string(t, i, escaped, acc) matches Some(r) ==> i < r.1 <= t.len(),
    decreases t.len() - i,
{
    if i < t.len() {
        lemma_scan_string_bounds(t, i + 1, false, acc.push(unescape_char(t[i])));
        lemma_scan_string_bounds(t, i + 1, true, acc);
        lemma_scan_string_bounds(t, i + 1, false, acc.push(t[i]));
    }
}

/// Decodes the JSON string body starting at `from` (just after an opening
/// quote): the text and the position right after the closing quote.
fn parse_json_string(v: &[char], from: usize) -> (r: Option<(String, usize)>)
    requires
        from <= v.len(),
    ensures
        match scan_string(v@.skip(from as int), 0, false, seq![]) {
            Some(p) => r matches Some(q) && q.0@ == p.0 && q.1 == from + p.1,
            None => r is None,
        },
{
    let ghost t = v@.skip(from as int);
    let mut value = String::new();
    let mut escaped = false;
    let mut i = from;
    while i < v.len()
        invariant
            from <= i <= v.len(),
            t == v@.skip(from as int),
            scan_string(t, 0, false, seq![]) == scan_string(t, i - from, escaped, value@),
        decreases v.len() - i,
    {
        let c = v[i];
        assert(t[i - from] == c);
        if escaped {
            let d = if c == 'n' {
                '\n'
            } else if c == 't' {
                '\t'
            } else {
                c
            };
            push_char(&mut value, d);
            escaped = false;
        } else if c == '\\' {
            escaped = true;
        } else if c == '"' {
            return Some((value, i + 1));
        } else {
            push_char(&mut value, c);
        }
        i += 1;
    }
    None
}

/// The string after the next `:` at or after `from`.
fn json_string_after_colon(v: &[char], from: usize) -> (r: Option<String>)
    requires
        from <= v.len(),
    ensures
        match string_after_colon(v@.skip(from as int)) {
            Some(s) => r matches Some(q) && q@ == s,
            None => r is None,
        },
{
    let ghost t = v@.skip(from as int);
    proof {
        lemma_find_char_from_shift(v@, ':', from as int, from as int);
        lemma_find_char_from_props(v@, ':', from as int);
    }
    let colon = match find_char_in(v, ':', from) {
        Some(c) => c,
        None => return None,
    };
    proof {
        lemma_find_char_from_shift(v@, '"', colon + 1, colon + 1);
        lemma_find_char_from_props(v@, '"', colon + 1);
        assert(t.skip(colon - from + 1) =~= v@.skip(colon + 1));
    }
    let q = match find_char_in(v, '"', colon + 1) {
        Some(q) => q,
        None => return None,
    };
    proof {
        assert(t.skip(colon - from + 1).skip(q - colon - 1 + 1) =~= v@.skip(q + 1));
    }
    match parse_json_string(v, q + 1) {
        Some((s, _)) => Some(s),
        None => None,
    }
}

/// The quoted strings of `body`.
fn json_string_values(body: &[char]) -> (r: Vec<String>)
    ensures
        string_views(r@) == string_values(body@),
{
    let mut values: Vec<String> = Vec::new();
    let mut pos: usize = 0;
    let ghost done: Seq<Seq<char>> = seq![];
    assert(body@.skip(0) =~= body@);
    loop
        invariant
            pos <= body.len(),
            string_views(values@) == done,
            string_values(body@) == done + string_values(body@.skip(pos as int)),
        decreases body.len() - pos,
    {
        let ghost t = body@.skip(pos as int);
        proof {
            lemma_find_char_from_shift(body@, '"', pos as int, pos as int);
            lemma_find_char_from_props(body@, '"', pos as int);
        }
        let q = match find_char_in(body, '"', pos) {
            Some(q) => q,
            None => {
                assert(done + seq![] =~= done);
                return values;
            },
        };
        proof {
            assert(t.skip(q - pos + 1) =~= body@.skip(q + 1));
            lemma_scan_string_bounds(body@.skip(q + 1), 0, false, seq![]);
        }
        match parse_json_string(body, q + 1) {
            Some((value, used)) => {
                proof {
                    let aq = body@.skip(q + 1);
                    let u = used - (q + 1);
                    assert(aq.skip(u) =~= body@.skip(used as int));
                    done = done.push(value@);
                    assert(string_values(body@) == done + string_values(body@.skip(used as int)));
                }
                values.push(value);
                proof {
                    assert(string_views(values@) =~= done);
                }
                pos = used;
            },
            None => {
                assert(done + seq![] =~= done);
                return values;
            },
        }
    }
}

/// The array of strings after the next `:` at or after `from`.
fn json_string_array_after_colon(v: &[char], from: usize) -> (r: Vec<String>)
    requires
        from <= v.len(),
    ensures
        string_views(r@) == array_after_colon(v@.skip(from as int)),
{
    let ghost t = v@.skip(from as int);
    proof {
        lemma_find_char_from_shift(v@, ':', from as int, from as int);
        lemma_find_char_from_props(v@, ':', from as int);
    }
    let colon = match find_char_in(v, ':', from) {
        Some(c) => c,
        None => {
            assert(string_views(Seq::<String>::empty()) =~= Seq::<Seq<char>>::empty());
            return Vec::new();
        },
    };
    proof {
        lemma_find_char_from_shift(v@, '[', colon + 1, colon + 1);
        lemma_find_char_from_props(v@, '[', colon + 1);
        assert(t.skip(colon - from + 1) =~= v@.skip(colon + 1));
    }
    let open = match find_char_in(v, '[', colon + 1) {
        Some(o) => o,
        None => {
            assert(string_views(Seq::<String>::empty()) =~= Seq::<Seq<char>>::empty());
            return Vec::new();
        },
    };
    proof {
        lemma_find_char_from_shift(v@, ']', open + 1, open + 1);
        lemma_find_char_from_props(v@, ']', open + 1);
        assert(v@.skip(colon + 1).skip(open - colon - 1 + 1) =~= v@.skip(open + 1));
    }
    let close = match find_char_in(v, ']', open + 1) {
        Some(e) => e,
        None => {
            assert(string_views(Seq::<String>::empty()) =~= Seq::<Seq<char>>::empty());
            return Vec::new();
        },
    };
    let body = sub_vec(v, open + 1, close);
    assert(body@ =~= v@.skip(open + 1).take(close - open - 1));
    json_string_values(&body)
}

impl SectionLayout {
    /// Removes `window_id` from the first section named `section_name`.
    pub fn remove_window(&mut self, section_name: &str, window_id: &str)
        ensures
            final(self)@ == remove_window_spec(old(self)@, section_name@, window_id@),
    {
        let name = String::from_str(section_name);
        let id = String::from_str(window_id);
        let found = self.position_named(&name);
        proof {
            lemma_first_named_from(self@, name@, 0);
        }
        match found {
            Some(p) => {
                let s = Section {
                    name: self.sections[p].name.clone(),
                    windows: without_id(&self.sections[p].windows, &id),
                };
                self.sections.set(p, s);
                assert(self@ =~= remove_window_spec(old(self)@, section_name@, window_id@));
            },
            None => {},
        }
    }

    /// Drops, from every section, the window ids that are not live.
    pub fn prune_missing(&mut self, live_window_ids: &[String])
        ensures
            final(self)@ == prune_spec(old(self)@, string_views(live_window_ids@)),
    {
        let mut i: usize = 0;
        while i < self.sections.len()
            invariant
                i <= self.sections.len(),
                self@.len() == old(self)@.len(),
                forall|k: int| i <= k < self@.len() ==> self@[k] == old(self)@[k],
                forall|k: int|
                    0 <= k < i ==> self@[k] == prune_spec(
                        old(self)@,
                        string_views(live_window_ids@),
                    )[k],
            decreases self.sections.len() - i,
        {
            let s = Section {
                name: self.sections[i].name.clone(),
                windows: only_live(&self.sections[i].windows, live_window_ids),
            };
            let ghost prev = self@;
            assert(s@ == prune_spec(old(self)@, string_views(live_window_ids@))[i as int]);
            self.sections.set(i, s);
            assert(self@ =~= prev.update(i as int, s@));
            i += 1;
        }
        assert(self@ =~= prune_spec(old(self)@, string_views(live_window_ids@)));
    }

    /// The layout as a small JSON document.
    pub fn to_json(&self) -> (r: String)
        ensures
            r@ == layout_json(self@),
    {
        let mut out = String::from_str("{\n  \"sections\": [");
        let mut i: usize = 0;
        while i < self.sections.len()
            invariant
                i <= self.sections.len(),
                out@ == "{\n  \"sections\": ["@ + sections_text(self@.take(i as int)),
            decreases self.sections.len() - i,
        {
            let ghost before = out@;
            if i > 0 {
                out.append(",");
            }
            out.append("\n    {\n");
            out.append("      \"name\": \"");
            push_escaped(&mut out, self.sections[i].name.as_str());
            out.append("\",\n");
            out.append("      \"windows\": [");
            let ws = &self.sections[i].windows;
            let mut j: usize = 0;
            let ghost mid = out@;
            assert(string_views(ws@).take(0) =~= Seq::<Seq<char>>::empty());
            while j < ws.len()
                invariant
                    j <= ws.len(),
                    ws == &self.sections@[i as int].windows,
                    out@ == mid + window_list_text(string_views(ws@).take(j as int)),
                decreases ws.len() - j,
            {
                if j > 0 {
                    out.append(", ");
                }
                out.append("\"");
                push_escaped(&mut out, ws[j].as_str());
                out.append("\"");
                proof {
                    let t = string_views(ws@).take(j as int + 1);
                    assert(t.drop_last() =~= string_views(ws@).take(j as int));
                    assert(out@ =~= mid + window_list_text(t));
                }
                j += 1;
            }
            assert(string_views(ws@).take(ws.len() as int) =~= string_views(ws@));
            out.append("]\n    }");
            proof {
                let t = self@.take(i as int + 1);
                assert(t.drop_last() =~= self@.take(i as int));
                assert(t.last() == self.sections@[i as int]@);
                assert(out@ =~= "{\n  \"sections\": ["@ + sections_text(t));
            }
            i += 1;
        }
        assert(self@.take(self.sections.len() as int) =~= self@);
        if self.sections.len() > 0 {
            out.append("\n");
            out.append("  ");
        }
        out.append("]\n}\n");
        proof {
            if self@.len() > 0 {
                assert("\n"@ + "  "@ =~= "\n  "@) by {
                    reveal_strlit("\n");
                    reveal_strlit("  ");
                    reveal_strlit("\n  ");
                }
            }
            assert(out@ =~= layout_json(self@));
        }
        out
    }

    /// Reads a layout back from the JSON text `to_json` writes. Text that
    /// does not have that shape yields the sections read before it.
    pub fn from_json(text: &str) -> (r: SectionLayout)
        ensures
            r@ == parse_sections(text@),
    {
        let v = chars_of(text);
        let name_key_v: Vec<char> = vec!['"', 'n', 'a', 'm', 'e', '"'];
        let windows_key_v: Vec<char> = vec!['"', 'w', 'i', 'n', 'd', 'o', 'w', 's', '"'];
        assert(name_key_v@ =~= name_key());
        assert(windows_key_v@ =~= windows_key());
        let mut layout = SectionLayout { sections: Vec::new() };
        let mut pos: usize = 0;
        assert(v@.skip(0) =~= v@);
        assert(layout@ =~= Seq::<SectionView>::empty());
        loop
            invariant
                pos <= v.len(),
                v@ == text@,
                name_key_v@ == name_key(),
                windows_key_v@ == windows_key(),
                parse_sections(text@) == layout@ + parse_sections(v@.skip(pos as int)),
            decreases v.len() - pos,
        {
            let ghost t = v@.skip(pos as int);
            proof {
                lemma_find_from_shift(v@, name_key(), pos as int, pos as int);
                lemma_find_from_props(v@, name_key(), pos as int);
            }
            let p = match find_in(&v, &name_key_v, pos) {
                Some(p) => p,
                None => {
                    assert(layout@ + seq![] =~= layout@);
                    return layout;
                },
            };
            let p1 = p + 6;
            proof {
                assert(t.skip(p - pos + 6) =~= v@.skip(p1 as int));
            }
            let name = match json_string_after_colon(&v, p1) {
                Some(n) => n,
                None => {
                    assert(layout@ + seq![] =~= layout@);
                    return layout;
                },
            };
            proof {
                lemma_find_from_shift(v@, windows_key(), p1 as int, p1 as int);
                lemma_find_from_props(v@, windows_key(), p1 as int);
            }
            let q = match find_in(&v, &windows_key_v, p1) {
                Some(q) => q,
                None => {
                    assert(layout@ + seq![] =~= layout@);
                    return layout;
                },
            };
            let p2 = q + 9;
            proof {
                assert(v@.skip(p1 as int).skip(q - p1 + 9) =~= v@.skip(p2 as int));
            }
            let windows = json_string_array_after_colon(&v, p2);
            let ghost sec = SectionView { name: name@, windows: string_views(windows@) };
            let ghost prev = layout@;
            layout.sections.push(Section { name, windows });
            proof {
                assert(layout@ =~= prev.push(sec));
                assert(parse_sections(t) == seq![sec] + parse_sections(v@.skip(p2 as int)));
                assert(prev + (seq![sec] + parse_sections(v@.skip(p2 as int))) =~= layout@
                    + parse_sections(v@.skip(p2 as int)));
            }
            pos = p2;
        }
    }
}

// ---------------------------------------------------------------------------
// Laws of the section operations
// ---------------------------------------------------------------------------

proof fn lemma_remove_id_contains(ws: Seq<Seq<char>>, id: Seq<char>, x: Seq<char>)
    ensures
        remove_id(ws, id).contains(x) == (ws.contains(x) && x != id),
    decreases ws.len(),
{
    if ws.len() > 0 {
        let rest = remove_id(ws.drop_last(), id);
        lemma_remove_id_contains(ws.drop_last(), id, x);
        assert(ws =~= ws.drop_last().push(ws.last()));
        lemma_push_contains(ws.drop_last(), ws.last(), x);
        if ws.last() != id {
            lemma_push_contains(rest, ws.last(), x);
        }
    }
}

proof fn lemma_keep_live_contains(ws: Seq<Seq<char>>, live: Seq<Seq<char>>, x: Seq<char>)
    ensures
        keep_live(ws, live).contains(x) == (ws.contains(x) && live.contains(x)),
    decreases ws.len(),
{
    if ws.len() > 0 {
        let rest = keep_live(ws.drop_last(), live);
        lemma_keep_live_contains(ws.drop_last(), live, x);
        assert(ws =~= ws.drop_last().push(ws.last()));
        lemma_push_contains(ws.drop_last(), ws.last(), x);
        if live.contains(ws.last()) {
            lemma_push_contains(rest, ws.last(), x);
        }
    }
}

pub(crate) proof fn lemma_push_contains<A>(s: Seq<A>, v: A, x: A)
    ensures
        s.push(v).contains(x) == (s.contains(x) || x == v),
{
    if s.contains(x) {
        let i = choose|i: int| 0 <= i < s.len() && s[i] == x;
        assert(s.push(v)[i] == x);
    }
    if x == v {
        assert(s.push(v)[s.len() as int] == v);
    }
    if s.push(v).contains(x) && x != v {
        let i = choose|i: int| 0 <= i < s.push(v).len() && s.push(v)[i] == x;
        assert(s[i] == x);
    }
}

proof fn lemma_create_has_section(l: Seq<SectionView>, raw: Seq<char>)
    requires
        trim_ws(raw).len() > 0,
    ensures
        has_section(create_spec(l, raw), trim_ws(raw)),
        create_spec(l, raw).len() >= l.len(),
        forall|k: int| 0 <= k < l.len() ==> #[trigger] create_spec(l, raw)[k] == l[k],
        forall|k: int|
            l.len() <= k < create_spec(l, raw).len() ==> (#[trigger] create_spec(l, raw)[k]).windows
                == Seq::<Seq<char>>::empty(),
{
    let n = trim_ws(raw);
    if !has_section(l, n) {
        let c = l.push(SectionView { name: n, windows: seq![] });
        assert(c[l.len() as int].name == n);
    }
}

/// Creating a section twice is creating it once.
pub proof fn lemma_create_section_idempotent(l: Seq<SectionView>, name: Seq<char>)
    ensures
        create_spec(create_spec(l, name), name) == create_spec(l, name),
{
    if trim_ws(name).len() > 0 {
        lemma_create_has_section(l, name);
    }
}

/// A tab belongs to one custom section at a time: after it is added to a
/// section, the section with that (trimmed) name holds it, last, and no
/// other section does; every other tab stays in exactly the sections it was
/// in, and no section is lost or renamed.
pub proof fn lemma_add_window_moves_the_tab(l: Seq<SectionView>, name: Seq<char>, id: Seq<char>, other: Seq<char>)
    requires
        trim_ws(name).len() > 0,
        trim_ws(id).len() > 0,
        other != trim_ws(id),
    ensures
        ({
            let r = add_spec(l, name, id);
            let n = trim_ws(name);
            let i = trim_ws(id);
            &&& first_named(r, n) is Some
            &&& r[first_named(r, n)->0].windows.last() == i
            &&& forall|k: int|
                0 <= k < r.len() ==> ((#[trigger] r[k]).windows.contains(i) <==> k == first_named(
                    r,
                    n,
                )->0)
            &&& r.len() >= l.len()
            &&& forall|k: int| 0 <= k < l.len() ==> (#[trigger] r[k]).name == l[k].name
            &&& forall|k: int|
                0 <= k < l.len() ==> ((#[trigger] r[k]).windows.contains(other) <==> l[k].windows.contains(
                    other,
                ))
            &&& forall|k: int| l.len() <= k < r.len() ==> !(#[trigger] r[k]).windows.contains(other)
        }),
{
    let n = trim_ws(name);
    let i = trim_ws(id);
    let e = remove_everywhere(l, i);
    lemma_trim_ws_idempotent(name);
    let c = create_spec(e, n);
    lemma_create_has_section(e, n);
    lemma_first_named_from(c, n, 0);
    assert(first_named(c, n) is Some);
    let p = first_named(c, n)->0;
    let r = c.update(p, SectionView { name: c[p].name, windows: c[p].windows.push(i) });
    assert(r == add_spec(l, name, id));
    lemma_first_named_from(r, n, 0);
    assert(forall|q: int| 0 <= q < r.len() ==> #[trigger] r[q].name == c[q].name);
    assert(r[p].name == n);
    match first_named(r, n) {
        Some(p2) => {
            if p2 < p {
                assert(c[p2].name == n);
            }
            if p < p2 {
                assert(r[p].name != n);
            }
        },
        None => {
            assert(r[p].name != n);
        },
    }
    assert(first_named(r, n) == Some(p));
    assert forall|k: int| 0 <= k < r.len() implies ((#[trigger] r[k]).windows.contains(i) <==> k == p) by {
        if k == p {
            assert(r[k].windows.last() == i);
            assert(r[k].windows[r[k].windows.len() - 1] == i);
        } else if k < l.len() {
            assert(r[k] == e[k]);
            lemma_remove_id_contains(l[k].windows, i, i);
        } else {
            assert(r[k].windows == Seq::<Seq<char>>::empty());
        }
    }
    assert forall|k: int| 0 <= k < l.len() implies ((#[trigger] r[k]).windows.contains(other) <==> l[k].windows.contains(other)) by {
        lemma_remove_id_contains(l[k].windows, i, other);
        if k == p {
            lemma_push_contains(c[p].windows, i, other);
        }
    }
    assert forall|k: int| l.len() <= k < r.len() implies !(#[trigger] r[k]).windows.contains(other) by {
        if k == p {
            lemma_push_contains(c[p].windows, i, other);
        }
    }
}

/// Removing a window touches only the first section with that name: it
/// leaves that section, and every other section stays as it was.
pub proof fn lemma_remove_window_touches_only_named(l: Seq<SectionView>, name: Seq<char>, id: Seq<char>)
    ensures
        ({
            let r = remove_window_spec(l, name, id);
            &&& r.len() == l.len()
            &&& forall|k: int|
                0 <= k < l.len() && Some(k) != first_named(l, name) ==> #[trigger] r[k] == l[k]
            &&& forall|k: int|
                0 <= k < l.len() && Some(k) == first_named(l, name) ==> !(#[trigger] r[k]).windows.contains(id)
                    && r[k].name == l[k].name
        }),
{
    lemma_first_named_from(l, name, 0);
    if first_named(l, name) is Some {
        let p = first_named(l, name)->0;
        lemma_remove_id_contains(l[p].windows, id, id);
    }
}

/// Pruning keeps exactly the live ids of each section, and every section.
pub proof fn lemma_prune_keeps_only_live(l: Seq<SectionView>, live: Seq<Seq<char>>, x: Seq<char>)
    ensures
        ({
            let r = prune_spec(l, live);
            &&& r.len() == l.len()
            &&& forall|k: int| 0 <= k < l.len() ==> (#[trigger] r[k]).name == l[k].name
            &&& forall|k: int|
                0 <= k < l.len() ==> ((#[trigger] r[k]).windows.contains(x) <==> (l[k].windows.contains(
                    x,
                ) && live.contains(x)))
        }),
{
    assert forall|k: int| 0 <= k < l.len() implies ((#[trigger] prune_spec(l, live)[k]).windows.contains(x) <==> (
    l[k].windows.contains(x) && live.contains(x))) by {
        lemma_keep_live_contains(l[k].windows, live, x);
    }
}

proof fn lemma_delete_props(l: Seq<SectionView>, name: Seq<char>, s: SectionView)
    ensures
        delete_spec(l, name).contains(s) == (l.contains(s) && s.name != name),
        forall|k: int| 0 <= k < delete_spec(l, name).len() ==> (#[trigger] delete_spec(l, name)[k]).name != name,
    decreases l.len(),
{
    if l.len() > 0 {
        let rest = delete_spec(l.drop_last(), name);
        lemma_delete_props(l.drop_last(), name, s);
        assert(l =~= l.drop_last().push(l.last()));
        lemma_push_contains(l.drop_last(), l.last(), s);
        if l.last().name != name {
            lemma_push_contains(rest, l.last(), s);
            assert forall|k: int| 0 <= k < delete_spec(l, name).len() implies (#[trigger] delete_spec(l, name)[k]).name != name by {
                if k < rest.len() {
                    assert(delete_spec(l, name)[k] == rest[k]);
                }
            }
        }
    }
}

/// Deleting a section removes every section with that name and keeps all
/// the others.
pub proof fn lemma_delete_section_removes_only_named(l: Seq<SectionView>, name: Seq<char>, s: SectionView)
    ensures
        forall|k: int|
            0 <= k < delete_spec(l, name).len() ==> (#[trigger] delete_spec(l, name)[k]).name != name,
        s.name != name ==> (delete_spec(l, name).contains(s) <==> l.contains(s)),
{
    lemma_delete_props(l, name, s);
}

/// No window id is listed twice in a layout: neither twice in one section
/// nor in two sections.
pub open spec fn ids_unique(l: Seq<SectionView>) -> bool {
    &&& forall|k: int| 0 <= k < l.len() ==> (#[trigger] l[k]).windows.no_duplicates()
    &&& forall|k1: int, k2: int, x: Seq<char>|
        0 <= k1 < l.len() && 0 <= k2 < l.len() && k1 != k2 && #[trigger] l[k1].windows.contains(x)
            ==> !#[trigger] l[k2].windows.contains(x)
}

pub(crate) proof fn lemma_push_unique<A>(s: Seq<A>, v: A)
    requires
        s.no_duplicates(),
        !s.contains(v),
    ensures
        s.push(v).no_duplicates(),
{
    let t = s.push(v);
    assert forall|i: int, j: int| 0 <= i < t.len() && 0 <= j < t.len() && i != j implies t[i] != t[j] by {
        if i < s.len() && j < s.len() {
            assert(t[i] == s[i] && t[j] == s[j]);
        } else if i < s.len() {
            assert(t[i] == s[i]);
        } else if j < s.len() {
            assert(t[j] == s[j]);
        }
    }
}

proof fn lemma_remove_id_unique(ws: Seq<Seq<char>>, id: Seq<char>)
    requires
        ws.no_duplicates(),
    ensures
        remove_id(ws, id).no_duplicates(),
    decreases ws.len(),
{
    if ws.len() > 0 {
        let d = ws.drop_last();
        assert(d.no_duplicates()) by {
            assert forall|i: int, j: int| 0 <= i < d.len() && 0 <= j < d.len() && i != j implies d[i] != d[j] by {
                assert(d[i] == ws[i] && d[j] == ws[j]);
            }
        }
        lemma_remove_id_unique(d, id);
        if ws.last() != id {
            lemma_remove_id_contains(d, id, ws.last());
            assert(!d.contains(ws.last())) by {
                if d.contains(ws.last()) {
                    let i = choose|i: int| 0 <= i < d.len() && d[i] == ws.last();
                    assert(ws[i] == ws[ws.len() - 1]);
                }
            }
            lemma_push_unique(remove_id(d, id), ws.last());
        }
    }
}

proof fn lemma_keep_live_unique(ws: Seq<Seq<char>>, live: Seq<Seq<char>>)
    requires
        ws.no_duplicates(),
    ensures
        keep_live(ws, live).no_duplicates(),
    decreases ws.len(),
{
    if ws.len() > 0 {
        let d = ws.drop_last();
        assert(d.no_duplicates()) by {
            assert forall|i: int, j: int| 0 <= i < d.len() && 0 <= j < d.len() && i != j implies d[i] != d[j] by {
                assert(d[i] == ws[i] && d[j] == ws[j]);
            }
        }
        lemma_keep_live_unique(d, live);
        if live.contains(ws.last()) {
            lemma_keep_live_contains(d, live, ws.last());
            assert(!d.contains(ws.last())) by {
                if d.contains(ws.last()) {
                    let i = choose|i: int| 0 <= i < d.len() && d[i] == ws.last();
                    assert(ws[i] == ws[ws.len() - 1]);
                }
            }
            lemma_push_unique(keep_live(d, live), ws.last());
        }
    }
}

proof fn lemma_create_keeps_unique(l: Seq<SectionView>, name: Seq<char>)
    requires
        ids_unique(l),
    ensures
        ids_unique(create_spec(l, name)),
{
    let c = create_spec(l, name);
    if c != l {
        let e = Seq::<Seq<char>>::empty();
        assert(c[l.len() as int].windows == e);
        assert(e.no_duplicates());
        assert forall|k1: int, k2: int, x: Seq<char>|
            0 <= k1 < c.len() && 0 <= k2 < c.len() && k1 != k2 && #[trigger] c[k1].windows.contains(x)
                implies !#[trigger] c[k2].windows.contains(x) by {
            if k1 < l.len() && k2 < l.len() {
                assert(c[k1] == l[k1] && c[k2] == l[k2]);
            }
        }
    }
}

proof fn lemma_delete_keeps_unique(l: Seq<SectionView>, name: Seq<char>)
    requires
        ids_unique(l),
    ensures
        ids_unique(delete_spec(l, name)),
    decreases l.len(),
{
    if l.len() > 0 {
        let d = l.drop_last();
        assert(ids_unique(d)) by {
            assert forall|k1: int, k2: int, x: Seq<char>|
                0 <= k1 < d.len() && 0 <= k2 < d.len() && k1 != k2 && #[trigger] d[k1].windows.contains(x)
                    implies !#[trigger] d[k2].windows.contains(x) by {
                assert(d[k1] == l[k1] && d[k2] == l[k2]);
            }
        }
        lemma_delete_keeps_unique(d, name);
        let rest = delete_spec(d, name);
        if l.last().name != name {
            let r = rest.push(l.last());
            let last: int = l.len() - 1;
            // Every kept section is one of the earlier ones.
            assert forall|j: int| 0 <= j < rest.len() implies exists|k: int| 0 <= k < d.len() && #[trigger] d[k] == #[trigger] rest[j] by {
                lemma_delete_props(d, name, rest[j]);
                assert(rest.contains(rest[j]));
            }
            assert forall|k1: int, k2: int, x: Seq<char>|
                0 <= k1 < r.len() && 0 <= k2 < r.len() && k1 != k2 && #[trigger] r[k1].windows.contains(x)
                    implies !#[trigger] r[k2].windows.contains(x) by {
                if k1 < rest.len() && k2 < rest.len() {
                    assert(r[k1] == rest[k1] && r[k2] == rest[k2]);
                } else if k1 < rest.len() {
                    assert(r[k1] == rest[k1]);
                    let k = choose|k: int| 0 <= k < d.len() && #[trigger] d[k] == rest[k1];
                    assert(l[k] == d[k]);
                    assert(r[k2] == l[last]);
                } else {
                    assert(r[k2] == rest[k2]);
                    let k = choose|k: int| 0 <= k < d.len() && #[trigger] d[k] == rest[k2];
                    assert(l[k] == d[k]);
                    assert(r[k1] == l[last]);
                }
            }
            assert forall|k: int| 0 <= k < r.len() implies (#[trigger] r[k]).windows.no_duplicates() by {
                if k < rest.len() {
                    assert(r[k] == rest[k]);
                } else {
                    assert(r[k] == l[last]);
                }
            }
        }
    }
}

proof fn lemma_add_keeps_unique(l: Seq<SectionView>, name: Seq<char>, id: Seq<char>)
    requires
        ids_unique(l),
    ensures
        ids_unique(add_spec(l, name, id)),
{
    let n = trim_ws(name);
    let i = trim_ws(id);
    if n.len() > 0 && i.len() > 0 {
        let e = remove_everywhere(l, i);
        assert forall|k: int| 0 <= k < e.len() implies (#[trigger] e[k]).windows.no_duplicates() by {
            lemma_remove_id_unique(l[k].windows, i);
        }
        assert forall|k1: int, k2: int, x: Seq<char>|
            0 <= k1 < e.len() && 0 <= k2 < e.len() && k1 != k2 && #[trigger] e[k1].windows.contains(x)
                implies !#[trigger] e[k2].windows.contains(x) by {
            lemma_remove_id_contains(l[k1].windows, i, x);
            lemma_remove_id_contains(l[k2].windows, i, x);
        }
        lemma_create_keeps_unique(e, n);
        let c = create_spec(e, n);
        lemma_trim_ws_idempotent(name);
        lemma_create_has_section(e, n);
        lemma_first_named_from(c, n, 0);
        let p = first_named(c, n)->0;
        assert forall|k: int| 0 <= k < c.len() implies !(#[trigger] c[k]).windows.contains(i) by {
            if k < l.len() {
                assert(c[k] == e[k]);
                lemma_remove_id_contains(l[k].windows, i, i);
            } else {
                assert(c[k].windows == Seq::<Seq<char>>::empty());
            }
        }
        let r = c.update(p, SectionView { name: c[p].name, windows: c[p].windows.push(i) });
        assert(!c[p].windows.contains(i));
        lemma_push_unique(c[p].windows, i);
        assert forall|k: int| 0 <= k < r.len() implies (#[trigger] r[k]).windows.no_duplicates() by {
            if k != p {
                assert(r[k] == c[k]);
            }
        }
        assert forall|k1: int, k2: int, x: Seq<char>|
            0 <= k1 < r.len() && 0 <= k2 < r.len() && k1 != k2 && #[trigger] r[k1].windows.contains(x)
                implies !#[trigger] r[k2].windows.contains(x) by {
            if k1 == p {
                lemma_push_contains(c[p].windows, i, x);
                assert(r[k2] == c[k2]);
                assert(c[k2].windows.contains(x) ==> !c[p].windows.contains(x));
            } else if k2 == p {
                lemma_push_contains(c[p].windows, i, x);
                assert(r[k1] == c[k1]);
            } else {
                assert(r[k1] == c[k1] && r[k2] == c[k2]);
            }
        }
        assert(r == add_spec(l, name, id));
    }
}

proof fn lemma_remove_window_keeps_unique(l: Seq<SectionView>, name: Seq<char>, id: Seq<char>)
    requires
        ids_unique(l),
    ensures
        ids_unique(remove_window_spec(l, name, id)),
{
    if first_named(l, name) is Some {
        lemma_first_named_from(l, name, 0);
        let p = first_named(l, name)->0;
        let r = remove_window_spec(l, name, id);
        lemma_remove_id_unique(l[p].windows, id);
        assert forall|k: int| 0 <= k < r.len() implies (#[trigger] r[k]).windows.no_duplicates() by {
            if k != p {
                assert(r[k] == l[k]);
            }
        }
        assert forall|k1: int, k2: int, x: Seq<char>|
            0 <= k1 < r.len() && 0 <= k2 < r.len() && k1 != k2 && #[trigger] r[k1].windows.contains(x)
                implies !#[trigger] r[k2].windows.contains(x) by {
            lemma_remove_id_contains(l[p].windows, id, x);
            if k1 != p {
                assert(r[k1] == l[k1]);
            }
            if k2 != p {
                assert(r[k2] == l[k2]);
            }
        }
    }
}

proof fn lemma_prune_keeps_unique(l: Seq<SectionView>, live: Seq<Seq<char>>)
    requires
        ids_unique(l),
    ensures
        ids_unique(prune_spec(l, live)),
{
    let r = prune_spec(l, live);
    assert forall|k: int| 0 <= k < r.len() implies (#[trigger] r[k]).windows.no_duplicates() by {
        lemma_keep_live_unique(l[k].windows, live);
    }
    assert forall|k1: int, k2: int, x: Seq<char>|
        0 <= k1 < r.len() && 0 <= k2 < r.len() && k1 != k2 && #[trigger] r[k1].windows.contains(x)
            implies !#[trigger] r[k2].windows.contains(x) by {
        lemma_keep_live_contains(l[k1].windows, live, x);
        lemma_keep_live_contains(l[k2].windows, live, x);
    }
}

/// Every operation on a layout keeps each window id listed at most once in
/// it: a tab is never in two sections, nor twice in one.
pub proof fn lemma_operations_keep_ids_unique(
    l: Seq<SectionView>,
    name: Seq<char>,
    id: Seq<char>,
    live: Seq<Seq<char>>,
)
    requires
        ids_unique(l),
    ensures
        ids_unique(create_spec(l, name)),
        ids_unique(delete_spec(l, name)),
        ids_unique(add_spec(l, name, id)),
        ids_unique(remove_window_spec(l, name, id)),
        ids_unique(prune_spec(l, live)),
{
    lemma_create_keeps_unique(l, name);
    lemma_delete_keeps_unique(l, name);
    lemma_add_keeps_unique(l, name, id);
    lemma_remove_window_keeps_unique(l, name, id);
    lemma_prune_keeps_unique(l, live);
}

/// Adding a tab keeps every section's other tabs in their order and lists
/// the tab exactly once, last, in the section with the (trimmed) name: every
/// section of the old layout keeps its tabs but the added one, in order;
/// that section then gains the tab at its end; a section created for it
/// holds just the tab.
pub proof fn lemma_add_window_keeps_order(l: Seq<SectionView>, name: Seq<char>, id: Seq<char>)
    requires
        trim_ws(name).len() > 0,
        trim_ws(id).len() > 0,
    ensures
        ({
            let r = add_spec(l, name, id);
            let i = trim_ws(id);
            let p = first_named(r, trim_ws(name))->0;
            &&& first_named(r, trim_ws(name)) is Some
            &&& forall|k: int|
                0 <= k < l.len() && k != p ==> (#[trigger] r[k]).windows == remove_id(l[k].windows, i)
            &&& p < l.len() ==> r[p].windows == remove_id(l[p].windows, i).push(i)
            &&& p >= l.len() ==> r[p].windows == seq![i]
            &&& forall|j: int| 0 <= j < r[p].windows.len() - 1 ==> r[p].windows[j] != i
        }),
{
    let n = trim_ws(name);
    let i = trim_ws(id);
    let e = remove_everywhere(l, i);
    lemma_trim_ws_idempotent(name);
    let c = create_spec(e, n);
    lemma_create_has_section(e, n);
    lemma_first_named_from(c, n, 0);
    let p = first_named(c, n)->0;
    let r = c.update(p, SectionView { name: c[p].name, windows: c[p].windows.push(i) });
    assert(r == add_spec(l, name, id));
    lemma_first_named_from(r, n, 0);
    assert(forall|q: int| 0 <= q < r.len() ==> #[trigger] r[q].name == c[q].name);
    match first_named(r, n) {
        Some(p2) => {
            if p2 < p {
                assert(c[p2].name == n);
            }
            if p < p2 {
                assert(r[p].name != n);
            }
        },
        None => {
            assert(r[p].name != n);
        },
    }
    assert(first_named(r, n) == Some(p));
    if p < l.len() {
        assert(c[p] == e[p]);
        lemma_remove_id_contains(l[p].windows, i, i);
    } else {
        assert(c[p].windows == Seq::<Seq<char>>::empty());
        assert(Seq::<Seq<char>>::empty().push(i) =~= seq![i]);
    }
    assert forall|k: int| 0 <= k < l.len() && k != p implies (#[trigger] r[k]).windows == remove_id(l[k].windows, i) by {
        assert(r[k] == c[k]);
        assert(c[k] == e[k]);
    }
    assert forall|j: int| 0 <= j < r[p].windows.len() - 1 implies r[p].windows[j] != i by {
        assert(r[p].windows[j] == c[p].windows[j]);
        assert(c[p].windows.contains(c[p].windows[j]));
    }
}

} // verus!
