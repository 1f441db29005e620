//! Agent-facing tab commands: list windows as JSON, resolve friendly tab
//! references, and capture or send text to a referenced tab.
use vstd::prelude::*;

use crate::json::{
    after_key_colon, escape_seq, field_text_spec, push_escaped, quoted_key, string_value_start,
};
use crate::records::{lemma_no_key_in_plain, lemma_no_key_in_quoted, lemma_unescape_scan_escaped};
use crate::roundtrip::{lemma_find_seq_at, quoted};
use crate::model::Window;
use crate::sections::{
    add_spec, prune_spec, remove_window_spec, string_views, SectionLayout, SectionView,
};
use crate::text::{
    chars_of, contains_chars, contains_seq, ends_with, lowercase, occurs_at, push_str, starts_with,
    starts_with_chars,
    str_is, string_of_range, to_lowercase, trim_char, trim_char_bounds, trim_ws,
};
use crate::tmux::{
    active_pane, active_pane_spec, cache_views, listing_spec, pane_map_spec, pane_records_spec,
    reply_text, run_words, tmux_windows, windows_match, CacheFiles, Ctx, Tmux,
};

verus! {

// ---------------------------------------------------------------------------
// Listing
// ---------------------------------------------------------------------------

pub open spec fn bool_text(b: bool) -> Seq<char> {
    if b {
        "true"@
    } else {
        "false"@
    }
}

/// One window as a JSON object on its own line.
pub open spec fn window_json(w: Window) -> Seq<char> {
    "  {\"index\":\""@ + escape_seq(w.index@) + "\",\"window_id\":\""@ + escape_seq(w.window_id@)
        + "\",\"tab_id\":\""@ + escape_seq(w.tab_id@) + "\",\"name\":\""@ + escape_seq(w.name@)
        + "\",\"description\":\""@ + escape_seq(w.description@) + "\",\"title\":\""@
        + escape_seq(w.title@) + "\",\"path\":\""@ + escape_seq(w.path@) + "\",\"pane\":\""@
        + escape_seq(w.pane@) + "\",\"command\":\""@ + escape_seq(w.command@) + "\",\"active\":"@
        + bool_text(w.active) + "}"@
}

/// The window objects, separated by a comma and a newline.
pub open spec fn window_objects(ws: Seq<Window>) -> Seq<char>
    decreases ws.len(),
{
    if ws.len() == 0 {
        seq![]
    } else {
        window_objects(ws.drop_last()) + (if ws.len() > 1 {
            ",\n"@
        } else {
            seq![]
        }) + window_json(ws.last())
    }
}

/// The agent-readable window list: a JSON array, one object per line.
pub open spec fn windows_json_spec(ws: Seq<Window>) -> Seq<char> {
    "[\n"@ + window_objects(ws) + "\n]\n"@
}

fn push_field(out: &mut String, key: &str, value: &String)
    ensures
        final(out)@ == old(out)@ + key@ + escape_seq(value@),
{
    push_str(out, key);
    push_escaped(out, value.as_str());
}

fn push_window_json(out: &mut String, w: &Window)
    ensures
        final(out)@ == old(out)@ + window_json(*w),
{
    let ghost start = out@;
    push_field(out, "  {\"index\":\"", &w.index);
    push_field(out, "\",\"window_id\":\"", &w.window_id);
    push_field(out, "\",\"tab_id\":\"", &w.tab_id);
    push_field(out, "\",\"name\":\"", &w.name);
    push_field(out, "\",\"description\":\"", &w.description);
    push_field(out, "\",\"title\":\"", &w.title);
    push_field(out, "\",\"path\":\"", &w.path);
    push_field(out, "\",\"pane\":\"", &w.pane);
    push_field(out, "\",\"command\":\"", &w.command);
    push_str(out, "\",\"active\":");
    if w.active {
        push_str(out, "true");
    } else {
        push_str(out, "false");
    }
    push_str(out, "}");
    assert(out@ =~= start + window_json(*w));
}

/// The windows as a JSON array of agent-addressable records.
pub fn windows_json(windows: &[Window]) -> (r: String)
    ensures
        r@ == windows_json_spec(windows@),
{
    let mut out = String::new();
    push_str(&mut out, "[\n");
    let ghost start = out@;
    let mut i: usize = 0;
    assert(windows@.take(0) =~= Seq::<Window>::empty());
    while i < windows.len()
        invariant
            i <= windows.len(),
            out@ == start + window_objects(windows@.take(i as int)),
        decreases windows.len() - i,
    {
        let ghost before = out@;
        if i > 0 {
            push_str(&mut out, ",\n");
        }
        push_window_json(&mut out, &windows[i]);
        proof {
            let t = windows@.take(i as int + 1);
            assert(t.drop_last() =~= windows@.take(i as int));
            assert(t.last() == windows@[i as int]);
            assert(out@ =~= start + window_objects(t));
        }
        i += 1;
    }
    assert(windows@.take(windows.len() as int) =~= windows@);
    push_str(&mut out, "\n]\n");
    out
}

// ---------------------------------------------------------------------------
// Reading a window object back
// ---------------------------------------------------------------------------

spec fn key_index() -> Seq<char> {
    seq![' ', ' ', '{', '"', 'i', 'n', 'd', 'e', 'x', '"', ':']
}

spec fn key_window_id() -> Seq<char> {
    seq![',', '"', 'w', 'i', 'n', 'd', 'o', 'w', '_', 'i', 'd', '"', ':']
}

spec fn key_tab_id() -> Seq<char> {
    seq![',', '"', 't', 'a', 'b', '_', 'i', 'd', '"', ':']
}

spec fn key_name() -> Seq<char> {
    seq![',', '"', 'n', 'a', 'm', 'e', '"', ':']
}

spec fn key_description() -> Seq<char> {
    seq![',', '"', 'd', 'e', 's', 'c', 'r', 'i', 'p', 't', 'i', 'o', 'n', '"', ':']
}

spec fn key_title() -> Seq<char> {
    seq![',', '"', 't', 'i', 't', 'l', 'e', '"', ':']
}

spec fn key_path() -> Seq<char> {
    seq![',', '"', 'p', 'a', 't', 'h', '"', ':']
}

spec fn key_pane() -> Seq<char> {
    seq![',', '"', 'p', 'a', 'n', 'e', '"', ':']
}

spec fn key_command() -> Seq<char> {
    seq![',', '"', 'c', 'o', 'm', 'm', 'a', 'n', 'd', '"', ':']
}

spec fn key_active() -> Seq<char> {
    seq![',', '"', 'a', 'c', 't', 'i', 'v', 'e', '"', ':']
}

/// What follows the title's value in a window object.
spec fn after_title(w: Window) -> Seq<char> {
    key_path() + quoted(w.path@) + key_pane() + quoted(w.pane@) + key_command() + quoted(w.command@)
        + key_active() + bool_text(w.active) + seq!['}']
}

/// The text before the title's value in a window object.
spec fn before_title(w: Window) -> Seq<char> {
    key_index() + quoted(w.index@) + key_window_id() + quoted(w.window_id@) + key_tab_id() + quoted(
        w.tab_id@,
    ) + key_name() + quoted(w.name@) + key_description() + quoted(w.description@) + key_title()
}

/// A quoted value between two keys, rejoined.
proof fn lemma_quote_step(a: Seq<char>, x: Seq<char>, k: Seq<char>)
    ensures
        (a + seq!['"']) + escape_seq(x) + (seq!['"'] + k + seq!['"']) == (a + quoted(x) + k) + seq!['"'],
{
    assert((a + seq!['"']) + escape_seq(x) + (seq!['"'] + k + seq!['"']) =~= (a + quoted(x) + k) + seq!['"']);
}

/// The literals a window object is written with.
proof fn lemma_window_json_literals()
    ensures
        "  {\"index\":\""@ == key_index() + seq!['"'],
        "\",\"window_id\":\""@ == seq!['"'] + key_window_id() + seq!['"'],
        "\",\"tab_id\":\""@ == seq!['"'] + key_tab_id() + seq!['"'],
        "\",\"name\":\""@ == seq!['"'] + key_name() + seq!['"'],
        "\",\"description\":\""@ == seq!['"'] + key_description() + seq!['"'],
        "\",\"title\":\""@ == seq!['"'] + key_title() + seq!['"'],
        "\",\"path\":\""@ == seq!['"'] + key_path() + seq!['"'],
        "\",\"pane\":\""@ == seq!['"'] + key_pane() + seq!['"'],
        "\",\"command\":\""@ == seq!['"'] + key_command() + seq!['"'],
        "\",\"active\":"@ == seq!['"'] + key_active(),
{
    reveal_strlit("  {\"index\":\"");
    reveal_strlit("\",\"window_id\":\"");
    reveal_strlit("\",\"tab_id\":\"");
    reveal_strlit("\",\"name\":\"");
    reveal_strlit("\",\"description\":\"");
    reveal_strlit("\",\"title\":\"");
    reveal_strlit("\",\"path\":\"");
    reveal_strlit("\",\"pane\":\"");
    reveal_strlit("\",\"command\":\"");
    reveal_strlit("\",\"active\":");
    assert("  {\"index\":\""@ =~= key_index() + seq!['"']);
    assert("\",\"window_id\":\""@ =~= seq!['"'] + key_window_id() + seq!['"']);
    assert("\",\"tab_id\":\""@ =~= seq!['"'] + key_tab_id() + seq!['"']);
    assert("\",\"name\":\""@ =~= seq!['"'] + key_name() + seq!['"']);
    assert("\",\"description\":\""@ =~= seq!['"'] + key_description() + seq!['"']);
    assert("\",\"title\":\""@ =~= seq!['"'] + key_title() + seq!['"']);
    assert("\",\"path\":\""@ =~= seq!['"'] + key_path() + seq!['"']);
    assert("\",\"pane\":\""@ =~= seq!['"'] + key_pane() + seq!['"']);
    assert("\",\"command\":\""@ =~= seq!['"'] + key_command() + seq!['"']);
    assert("\",\"active\":"@ =~= seq!['"'] + key_active());
}

/// A window object, cut at its keys and values.
proof fn lemma_window_json_parts(w: Window)
    ensures
        window_json(w) == before_title(w) + quoted(w.title@) + after_title(w),
{
    lemma_window_json_literals();
    let a2 = key_index() + quoted(w.index@) + key_window_id();
    lemma_quote_step(key_index(), w.index@, key_window_id());
    let a3 = a2 + quoted(w.window_id@) + key_tab_id();
    lemma_quote_step(a2, w.window_id@, key_tab_id());
    let a4 = a3 + quoted(w.tab_id@) + key_name();
    lemma_quote_step(a3, w.tab_id@, key_name());
    let a5 = a4 + quoted(w.name@) + key_description();
    lemma_quote_step(a4, w.name@, key_description());
    let a6 = a5 + quoted(w.description@) + key_title();
    lemma_quote_step(a5, w.description@, key_title());
    assert(a6 == before_title(w));
    let a7 = a6 + quoted(w.title@) + key_path();
    lemma_quote_step(a6, w.title@, key_path());
    let a8 = a7 + quoted(w.path@) + key_pane();
    lemma_quote_step(a7, w.path@, key_pane());
    let a9 = a8 + quoted(w.pane@) + key_command();
    lemma_quote_step(a8, w.pane@, key_command());
    let e9 = escape_seq(w.command@);
    assert((a9 + seq!['"']) + e9 + (seq!['"'] + key_active()) =~= a9 + quoted(w.command@) + key_active());
    reveal_strlit("}");
    assert("}"@ =~= seq!['}']);
    let total = a9 + quoted(w.command@) + key_active() + bool_text(w.active) + seq!['}'];
    assert(window_json(w) == total);
    assert(total =~= before_title(w) + quoted(w.title@) + after_title(w));
}

/// A key met first at `p` and followed directly by `:"` has its value from
/// `p` plus the key's length plus two.
proof fn lemma_tight_value_start(text: Seq<char>, k: Seq<char>, p: int)
    requires
        occurs_at(text, quoted_key(k), p),
        forall|q: int| 0 <= q < p ==> !occurs_at(text, quoted_key(k), q),
        p + quoted_key(k).len() + 1 < text.len(),
        text[p + quoted_key(k).len()] == ':',
        text[p + quoted_key(k).len() + 1] == '"',
    ensures
        string_value_start(text, k) == Some(p + quoted_key(k).len() + 2),
{
    let n = quoted_key(k).len();
    lemma_find_seq_at(text, quoted_key(k), p);
    crate::text::lemma_find_char_from_props(text, ':', p + n);
    assert(after_key_colon(text, k) == Some(p + n + 1));
    crate::text::lemma_find_char_from_props(text, '"', p + n + 1);
}

/// A stretch within the front part of a concatenation is a stretch of
/// that front part; the back part sits right after it.
proof fn lemma_concat_parts(x: Seq<char>, y: Seq<char>)
    ensures
        forall|i: int, j: int| 0 <= i <= j <= x.len() ==> #[trigger] (x + y).subrange(i, j) == x.subrange(i, j),
        forall|i: int| 0 <= i < x.len() ==> #[trigger] (x + y)[i] == x[i],
        (x + y).subrange(x.len() as int, (x.len() + y.len()) as int) == y,
        y.len() > 0 ==> (x + y)[x.len() as int] == y[0],
{
    assert forall|i: int, j: int| 0 <= i <= j <= x.len() implies #[trigger] (x + y).subrange(i, j) == x.subrange(i, j) by {
        assert((x + y).subrange(i, j) =~= x.subrange(i, j));
    }
    assert((x + y).subrange(x.len() as int, (x.len() + y.len()) as int) =~= y);
}

/// No `"title"` key starts before the one `before_title` ends with, when
/// no value before it holds one.
#[verifier::spinoff_prover]
#[verifier::rlimit(60)]
proof fn lemma_no_title_key_before(w: Window, z: Seq<char>)
    requires
        !contains_seq(quoted(w.index@), quoted_key("title"@)),
        !contains_seq(quoted(w.window_id@), quoted_key("title"@)),
        !contains_seq(quoted(w.tab_id@), quoted_key("title"@)),
        !contains_seq(quoted(w.name@), quoted_key("title"@)),
        !contains_seq(quoted(w.description@), quoted_key("title"@)),
    ensures
        before_title(w).len() >= 9,
        (before_title(w) + z).subrange(before_title(w).len() - 8, before_title(w).len() - 1) == quoted_key(
            "title"@,
        ),
        (before_title(w) + z)[before_title(w).len() - 1] == ':',
        forall|q: int|
            0 <= q < before_title(w).len() - 8 ==> !occurs_at(before_title(w) + z, quoted_key("title"@), q),
{
    reveal_strlit("title");
    let letters = seq!['t', 'i', 't', 'l', 'e'];
    let key = quoted_key("title"@);
    assert(key =~= seq!['"'] + letters + seq!['"']);
    let q1 = quoted(w.index@);
    let q2 = quoted(w.window_id@);
    let q3 = quoted(w.tab_id@);
    let q4 = quoted(w.name@);
    let q5 = quoted(w.description@);
    let b1 = key_index();
    let b2 = b1 + q1;
    let b3 = b2 + key_window_id();
    let b4 = b3 + q2;
    let b5 = b4 + key_tab_id();
    let b6 = b5 + q3;
    let b7 = b6 + key_name();
    let b8 = b7 + q4;
    let b9 = b8 + key_description();
    let b10 = b9 + q5;
    let b11 = b10 + key_title();
    let text = b11 + z;
    assert(b11 == before_title(w));
    lemma_concat_parts(b1, q1);
    lemma_concat_parts(b2, key_window_id());
    lemma_concat_parts(b3, q2);
    lemma_concat_parts(b4, key_tab_id());
    lemma_concat_parts(b5, q3);
    lemma_concat_parts(b6, key_name());
    lemma_concat_parts(b7, q4);
    lemma_concat_parts(b8, key_description());
    lemma_concat_parts(b9, q5);
    lemma_concat_parts(b10, key_title());
    lemma_concat_parts(b11, z);
    let o1 = b1.len() as int;
    let o2 = b2.len() as int;
    let o3 = b3.len() as int;
    let o4 = b4.len() as int;
    let o5 = b5.len() as int;
    let o6 = b6.len() as int;
    let o7 = b7.len() as int;
    let o8 = b8.len() as int;
    let o9 = b9.len() as int;
    let o10 = b10.len() as int;
    assert(text.subrange(0, o1) == key_index()) by {
        assert(b2.subrange(0, o1) =~= b1);
    }
    assert(text.subrange(o1, o2) == q1);
    assert(text.subrange(o2, o3) == key_window_id());
    assert(text.subrange(o3, o4) == q2);
    assert(text.subrange(o4, o5) == key_tab_id());
    assert(text.subrange(o5, o6) == q3);
    assert(text.subrange(o6, o7) == key_name());
    assert(text.subrange(o7, o8) == q4);
    assert(text.subrange(o8, o9) == key_description());
    assert(text.subrange(o9, o10) == q5);
    assert(text[o2] == ',');
    assert(text[o4] == ',');
    assert(text[o6] == ',');
    assert(text[o8] == ',');
    assert(text[o10] == ',');
    assert(text.subrange(o10 + 1, o10 + 8) == key) by {
        assert(key_title().subrange(1, 8) =~= key);
        assert(b11.subrange(o10, o10 + 9) == key_title());
        assert(b11.subrange(o10 + 1, o10 + 8) =~= b11.subrange(o10, o10 + 9).subrange(1, 8));
    }
    assert(text[o10 + 8] == ':') by {
        assert(b11[o10 + 8] == b11.subrange(o10, o10 + 9)[8]);
    }
    lemma_no_key_in_plain(text, 0, key_index(), key);
    lemma_no_key_in_quoted(text, o1, w.index@, letters);
    lemma_no_key_in_plain(text, o2, key_window_id(), key);
    lemma_no_key_in_quoted(text, o3, w.window_id@, letters);
    lemma_no_key_in_plain(text, o4, key_tab_id(), key);
    lemma_no_key_in_quoted(text, o5, w.tab_id@, letters);
    lemma_no_key_in_plain(text, o6, key_name(), key);
    lemma_no_key_in_quoted(text, o7, w.name@, letters);
    lemma_no_key_in_plain(text, o8, key_description(), key);
    lemma_no_key_in_quoted(text, o9, w.description@, letters);
    assert(!occurs_at(text, key, o10)) by {
        assert(text.subrange(o10, o10 + 7)[0] == text[o10]);
    }
}

/// Each object of the window listing gives back its window's title: the
/// `title` field of `window_json(w)` decodes to `w.title`, for every title
/// without carriage returns (the escaper drops those), unless a value
/// written before it, quoted and escaped, holds `"title"` (a value equal to
/// `title` or ending in `"title`), which a reader takes for the key.
pub proof fn lemma_window_json_title(w: Window)
    requires
        !w.title@.contains('\r'),
        !contains_seq(quoted(w.index@), quoted_key("title"@)),
        !contains_seq(quoted(w.window_id@), quoted_key("title"@)),
        !contains_seq(quoted(w.tab_id@), quoted_key("title"@)),
        !contains_seq(quoted(w.name@), quoted_key("title"@)),
        !contains_seq(quoted(w.description@), quoted_key("title"@)),
    ensures
        field_text_spec(window_json(w), "title"@) == w.title@,
{
    reveal_strlit("title");
    lemma_window_json_parts(w);
    let head = before_title(w);
    let qt = quoted(w.title@);
    let et = escape_seq(w.title@);
    let z = qt + after_title(w);
    let text = head + z;
    assert(window_json(w) =~= text);
    lemma_no_title_key_before(w, z);
    let n = head.len() as int;
    let p = n - 8;
    assert(occurs_at(text, quoted_key("title"@), p));
    assert(quoted_key("title"@).len() == 7);
    assert(text[n] == z[0]);
    assert(z[0] == '"');
    assert(text.subrange(n + 1, n + 1 + et.len()) =~= et);
    let c: int = et.len() as int + 1;
    assert(text[n + c] == z[c]);
    assert(z[c] == qt[c]);
    lemma_tight_value_start(text, "title"@, p);
    lemma_unescape_scan_escaped(text, n + 1, w.title@, seq![]);
    assert(seq![] + w.title@ =~= w.title@);
}

/// Each object of the window listing closes with the window's active flag:
/// `"active":true}` for the active window, `"active":false}` for the others.
pub proof fn lemma_window_json_active(w: Window)
    ensures
        ends_with(window_json(w), "\",\"active\":"@ + bool_text(w.active) + "}"@),
{
    let s = window_json(w);
    let p = "\",\"active\":"@ + bool_text(w.active) + "}"@;
    let front = "  {\"index\":\""@ + escape_seq(w.index@) + "\",\"window_id\":\""@ + escape_seq(w.window_id@)
        + "\",\"tab_id\":\""@ + escape_seq(w.tab_id@) + "\",\"name\":\""@ + escape_seq(w.name@)
        + "\",\"description\":\""@ + escape_seq(w.description@) + "\",\"title\":\""@
        + escape_seq(w.title@) + "\",\"path\":\""@ + escape_seq(w.path@) + "\",\"pane\":\""@
        + escape_seq(w.pane@) + "\",\"command\":\""@ + escape_seq(w.command@);
    assert(s == front + "\",\"active\":"@ + bool_text(w.active) + "}"@);
    assert(s.skip(s.len() - p.len()) =~= p);
}

// ---------------------------------------------------------------------------
// Resolving references
// ---------------------------------------------------------------------------

/// A reference with an optional `@tab:` prefix and surrounding quotes and
/// whitespace removed, lowercased.
pub open spec fn normalize_ref_spec(reference: Seq<char>) -> Seq<char> {
    let r = if starts_with(reference, "@tab:"@) {
        reference.skip("@tab:"@.len() as int)
    } else {
        reference
    };
    lowercase(trim_ws(trim_char(r, '"')))
}

fn normalize_ref(reference: &str) -> (r: String)
    ensures
        r@ == normalize_ref_spec(reference@),
{
    let v = chars_of(reference);
    let p = chars_of("@tab:");
    let start = if starts_with_chars(v.as_slice(), p.as_slice()) {
        p.len()
    } else {
        0
    };
    assert(v@.subrange(start as int, v@.len() as int) =~= if starts_with(reference@, "@tab:"@) {
        reference@.skip("@tab:"@.len() as int)
    } else {
        reference@
    });
    let (a, b) = trim_char_bounds(v.as_slice(), start, v.len(), '"');
    let unquoted = string_of_range(v.as_slice(), a, b);
    let trimmed = crate::text::trim(unquoted.as_str());
    to_lowercase(trimmed.as_str())
}

/// The fields a reference may name, besides the index.
pub open spec fn named_fields(w: Window) -> Seq<Seq<char>> {
    seq![w.name@, w.description@, w.title@, w.path@, w.tab_id@, w.window_id@]
}

/// Some named field, lowercased, equals the query.
pub open spec fn exact_match(w: Window, q: Seq<char>) -> bool {
    exists|k: int| 0 <= k < 6 && lowercase(#[trigger] named_fields(w)[k]) == q
}

/// Some named field, lowercased, contains the query.
pub open spec fn partial_match(w: Window, q: Seq<char>) -> bool {
    exists|k: int| 0 <= k < 6 && contains_seq(lowercase(#[trigger] named_fields(w)[k]), q)
}

pub open spec fn first_index_match(ws: Seq<Window>, q: Seq<char>, k: int) -> Option<int>
    decreases ws.len() - k,
{
    if k < 0 || k >= ws.len() {
        None
    } else if ws[k].index@ == q {
        Some(k)
    } else {
        first_index_match(ws, q, k + 1)
    }
}

pub open spec fn first_exact_match(ws: Seq<Window>, q: Seq<char>, k: int) -> Option<int>
    decreases ws.len() - k,
{
    if k < 0 || k >= ws.len() {
        None
    } else if exact_match(ws[k], q) {
        Some(k)
    } else {
        first_exact_match(ws, q, k + 1)
    }
}

pub open spec fn first_partial_match(ws: Seq<Window>, q: Seq<char>, k: int) -> Option<int>
    decreases ws.len() - k,
{
    if k < 0 || k >= ws.len() {
        None
    } else if partial_match(ws[k], q) {
        Some(k)
    } else {
        first_partial_match(ws, q, k + 1)
    }
}

/// The window a reference names: the first whose index is the query, else
/// the first with a field equal to it, else the first with a field
/// containing it (fields compared lowercased); nothing for an empty query.
pub open spec fn find_window_spec(ws: Seq<Window>, reference: Seq<char>) -> Option<int> {
    let q = normalize_ref_spec(reference);
    if q.len() == 0 {
        None
    } else {
        match first_index_match(ws, q, 0) {
            Some(i) => Some(i),
            None => match first_exact_match(ws, q, 0) {
                Some(i) => Some(i),
                None => first_partial_match(ws, q, 0),
            },
        }
    }
}

fn field_lowercases(w: &Window) -> (r: Vec<String>)
    ensures
        r@.len() == 6,
        forall|k: int| 0 <= k < 6 ==> (#[trigger] r@[k])@ == lowercase(named_fields(*w)[k]),
{
    let mut r: Vec<String> = Vec::new();
    r.push(to_lowercase(w.name.as_str()));
    r.push(to_lowercase(w.description.as_str()));
    r.push(to_lowercase(w.title.as_str()));
    r.push(to_lowercase(w.path.as_str()));
    r.push(to_lowercase(w.tab_id.as_str()));
    r.push(to_lowercase(w.window_id.as_str()));
    r
}

fn matches_exactly(w: &Window, q: &String) -> (r: bool)
    ensures
        r == exact_match(*w, q@),
{
    let l = field_lowercases(w);
    let mut k: usize = 0;
    while k < 6
        invariant
            k <= 6,
            l@.len() == 6,
            forall|j: int| 0 <= j < 6 ==> (#[trigger] l@[j])@ == lowercase(named_fields(*w)[j]),
            forall|j: int| 0 <= j < k ==> lowercase(#[trigger] named_fields(*w)[j]) != q@,
        decreases 6 - k,
    {
        if l[k] == *q {
            assert(lowercase(named_fields(*w)[k as int]) == q@);
            return true;
        }
        k += 1;
    }
    false
}

fn matches_partially(w: &Window, q: &String) -> (r: bool)
    ensures
        r == partial_match(*w, q@),
{
    let l = field_lowercases(w);
    let qv = chars_of(q.as_str());
    let mut k: usize = 0;
    while k < 6
        invariant
            k <= 6,
            l@.len() == 6,
            qv@ == q@,
            forall|j: int| 0 <= j < 6 ==> (#[trigger] l@[j])@ == lowercase(named_fields(*w)[j]),
            forall|j: int| 0 <= j < k ==> !contains_seq(lowercase(#[trigger] named_fields(*w)[j]), q@),
        decreases 6 - k,
    {
        if contains_chars(chars_of(l[k].as_str()).as_slice(), qv.as_slice()) {
            assert(contains_seq(lowercase(named_fields(*w)[k as int]), q@));
            return true;
        }
        k += 1;
    }
    false
}

/// The first window whose tmux index is `index`.
pub fn window_with_index<'a>(windows: &'a [Window], index: &str) -> (r: Option<&'a Window>)
    ensures
        match r {
            Some(w) => exists|i: int|
                first_index_match(windows@, index@, 0) == Some(i) && 0 <= i < windows@.len()
                    && *w == windows@[i],
            None => first_index_match(windows@, index@, 0) is None,
        },
{
    let mut k: usize = 0;
    while k < windows.len()
        invariant
            k <= windows.len(),
            first_index_match(windows@, index@, 0) == first_index_match(windows@, index@, k as int),
        decreases windows.len() - k,
    {
        if str_is(windows[k].index.as_str(), index) {
            return Some(&windows[k]);
        }
        k += 1;
    }
    None
}

/// Resolves a tab reference to a window: by index, then by an exact field
/// match, then by a partial one.
pub fn find_window<'a>(windows: &'a [Window], reference: &str) -> (r: Option<&'a Window>)
    ensures
        match r {
            Some(w) => exists|i: int|
                find_window_spec(windows@, reference@) == Some(i) && 0 <= i < windows@.len()
                    && *w == windows@[i],
            None => find_window_spec(windows@, reference@) is None,
        },
{
    let query = normalize_ref(reference);
    if query.as_str().is_empty() {
        return None;
    }
    let ghost q = query@;
    let mut k: usize = 0;
    while k < windows.len()
        invariant
            k <= windows.len(),
            q == query@,
            q.len() > 0,
            q == normalize_ref_spec(reference@),
            first_index_match(windows@, q, 0) == first_index_match(windows@, q, k as int),
        decreases windows.len() - k,
    {
        if windows[k].index == query {
            assert(find_window_spec(windows@, reference@) == Some(k as int));
            return Some(&windows[k]);
        }
        k += 1;
    }
    let mut k: usize = 0;
    while k < windows.len()
        invariant
            k <= windows.len(),
            q == query@,
            q.len() > 0,
            q == normalize_ref_spec(reference@),
            first_index_match(windows@, q, 0) is None,
            first_exact_match(windows@, q, 0) == first_exact_match(windows@, q, k as int),
        decreases windows.len() - k,
    {
        if matches_exactly(&windows[k], &query) {
            assert(find_window_spec(windows@, reference@) == Some(k as int));
            return Some(&windows[k]);
        }
        k += 1;
    }
    let mut k: usize = 0;
    while k < windows.len()
        invariant
            k <= windows.len(),
            q == query@,
            q.len() > 0,
            q == normalize_ref_spec(reference@),
            first_index_match(windows@, q, 0) is None,
            first_exact_match(windows@, q, 0) is None,
            first_partial_match(windows@, q, 0) == first_partial_match(windows@, q, k as int),
        decreases windows.len() - k,
    {
        if matches_partially(&windows[k], &query) {
            assert(find_window_spec(windows@, reference@) == Some(k as int));
            return Some(&windows[k]);
        }
        k += 1;
    }
    None
}

/// The matched window as a one-element JSON array, or `null`.
pub open spec fn find_json_spec(ws: Seq<Window>, reference: Seq<char>) -> Seq<char> {
    match find_window_spec(ws, reference) {
        Some(i) => windows_json_spec(seq![ws[i]]),
        None => "null\n"@,
    }
}

/// The window a reference names, as agent-readable JSON.
pub fn find_json(windows: &[Window], reference: &str) -> (r: String)
    ensures
        r@ == find_json_spec(windows@, reference@),
{
    match find_window(windows, reference) {
        Some(w) => {
            let mut out = String::new();
            push_str(&mut out, "[\n");
            push_window_json(&mut out, w);
            push_str(&mut out, "\n]\n");
            proof {
                let one = seq![*w];
                assert(one.drop_last() =~= Seq::<Window>::empty());
                assert(window_objects(one.drop_last()) == Seq::<char>::empty());
                assert(one.last() == *w);
                assert(window_objects(one) =~= window_json(*w));
                assert(out@ =~= windows_json_spec(one));
            }
            out
        },
        None => String::from_str("null\n"),
    }
}

// ---------------------------------------------------------------------------
// Sections by reference
// ---------------------------------------------------------------------------

/// The window id a reference resolves to, when the window has one.
pub open spec fn ref_window_id(ws: Seq<Window>, reference: Seq<char>) -> Option<Seq<char>> {
    match find_window_spec(ws, reference) {
        Some(i) => if ws[i].window_id@.len() > 0 {
            Some(ws[i].window_id@)
        } else {
            None
        },
        None => None,
    }
}

/// Adds the referenced window to a section; false when the reference
/// matches no window with an id.
pub fn add_section_window_by_ref(
    layout: &mut SectionLayout,
    windows: &[Window],
    section: &str,
    reference: &str,
) -> (r: bool)
    ensures
        r == ref_window_id(windows@, reference@) is Some,
        final(layout)@ == match ref_window_id(windows@, reference@) {
            Some(id) => add_spec(old(layout)@, section@, id),
            None => old(layout)@,
        },
{
    let window = match find_window(windows, reference) {
        Some(w) => w,
        None => return false,
    };
    if window.window_id.as_str().is_empty() {
        return false;
    }
    layout.add_window(section, window.window_id.as_str());
    true
}

/// The window ids of a window list, in order.
pub open spec fn window_ids(ws: Seq<Window>) -> Seq<Seq<char>> {
    ws.map_values(|w: Window| w.window_id@)
}

/// The `--section add` edit: adds the referenced window to a section, then
/// drops every window id that no live window has; false, and the layout
/// unchanged, when the reference matches no window with an id.
pub fn add_section_window_and_prune(
    layout: &mut SectionLayout,
    windows: &[Window],
    section: &str,
    reference: &str,
) -> (r: bool)
    ensures
        r == ref_window_id(windows@, reference@) is Some,
        final(layout)@ == match ref_window_id(windows@, reference@) {
            Some(id) => prune_spec(add_spec(old(layout)@, section@, id), window_ids(windows@)),
            None => old(layout)@,
        },
{
    if !add_section_window_by_ref(layout, windows, section, reference) {
        return false;
    }
    let mut live: Vec<String> = Vec::new();
    let mut k: usize = 0;
    while k < windows.len()
        invariant
            k <= windows.len(),
            string_views(live@) == window_ids(windows@.take(k as int)),
        decreases windows.len() - k,
    {
        live.push(windows[k].window_id.clone());
        proof {
            assert(windows@.take(k as int + 1) =~= windows@.take(k as int).push(windows@[k as int]));
            assert(window_ids(windows@.take(k as int + 1)) =~= window_ids(windows@.take(k as int)).push(
                windows@[k as int].window_id@,
            ));
        }
        k += 1;
    }
    assert(windows@.take(windows.len() as int) =~= windows@);
    layout.prune_missing(live.as_slice());
    true
}

/// Removes the referenced window from a section; false when the reference
/// matches no window with an id.
pub fn remove_section_window_by_ref(
    layout: &mut SectionLayout,
    windows: &[Window],
    section: &str,
    reference: &str,
) -> (r: bool)
    ensures
        r == ref_window_id(windows@, reference@) is Some,
        final(layout)@ == match ref_window_id(windows@, reference@) {
            Some(id) => remove_window_spec(old(layout)@, section@, id),
            None => old(layout)@,
        },
{
    let window = match find_window(windows, reference) {
        Some(w) => w,
        None => return false,
    };
    if window.window_id.as_str().is_empty() {
        return false;
    }
    layout.remove_window(section, window.window_id.as_str());
    true
}

// ---------------------------------------------------------------------------
// Talking to a referenced tab
// ---------------------------------------------------------------------------

/// The pane to address for a window: its recorded pane, else the pane tmux
/// reports as its representative.
fn target_pane<T: Tmux>(t: &T, ctx: &Ctx, window: &Window) -> (r: String)
    ensures
        exists|out: Seq<char>| #[trigger] tab_pane_spec(*window, out, ctx.home@) == r@,
{
    if window.pane.as_str().is_empty() {
        let r = active_pane(t, window.index.as_str(), ctx.home.as_str());
        proof {
            let out = choose|out: Seq<char>| #[trigger] active_pane_spec(pane_records_spec(out), ctx.home@) == r@;
            assert(tab_pane_spec(*window, out, ctx.home@) == r@);
        }
        r
    } else {
        let r = window.pane.clone();
        assert(tab_pane_spec(*window, Seq::<char>::empty(), ctx.home@) == r@);
        r
    }
}

/// `ws` is a window list tmux can give, with these cache files: some
/// replies to the queries of `tmux_windows` build it.
pub open spec fn listed_windows(ws: Seq<Window>, ctx: Ctx, cache: CacheFiles) -> bool {
    exists|panes_out: Seq<char>, session_id: Seq<char>, listing: Seq<char>, outs: Seq<Seq<char>>|
        #[trigger] windows_match(
            ws,
            pane_map_spec(panes_out, ctx.home@),
            session_id,
            listing_spec(listing),
            outs,
            cache_views(cache),
            ctx.home@,
            ctx.cwd@,
        )
}

/// The pane a window is addressed by: its recorded pane, else the pane
/// tmux reports for it in the pane listing `pane_out`.
pub open spec fn tab_pane_spec(w: Window, pane_out: Seq<char>, home: Seq<char>) -> Seq<char> {
    if w.pane@.len() > 0 {
        w.pane@
    } else {
        active_pane_spec(pane_records_spec(pane_out), home)
    }
}

pub open spec fn opt_view(r: Option<String>) -> Option<Seq<char>> {
    match r {
        Some(t) => Some(t@),
        None => None,
    }
}

/// What `capture_tab` gives for the window list `ws`, the pane listing of
/// the window the reference resolves to, and the capture's reply (`None`
/// for a failed command): nothing when no window matches or it has no
/// pane, else the reply.
pub open spec fn capture_outcome(
    ws: Seq<Window>,
    reference: Seq<char>,
    pane_out: Seq<char>,
    home: Seq<char>,
    reply: Option<Seq<char>>,
) -> Option<Seq<char>> {
    match find_window_spec(ws, reference) {
        Some(i) => if tab_pane_spec(ws[i], pane_out, home).len() > 0 {
            reply
        } else {
            None
        },
        None => None,
    }
}

/// The send step reached after tmux answered the step commands with the
/// successes `oks`, in order.
pub open spec fn steps_after(oks: Seq<bool>, enter: bool) -> SendStep
    decreases oks.len(),
{
    if oks.len() == 0 {
        SendStep::SetBuffer
    } else {
        send_next_spec(steps_after(oks.drop_last(), enter), oks.last(), enter)
    }
}

/// What `send_to_tab` gives for the window list `ws`, the pane listing of
/// the window the reference resolves to, and the successes `oks` of the
/// step commands sent: false when no window matches or it has no pane;
/// else the steps ran until done, and the result is whether they ended in
/// `Done(true)`, that is, whether set-buffer and paste-buffer succeeded.
pub open spec fn send_outcome(
    ws: Seq<Window>,
    reference: Seq<char>,
    pane_out: Seq<char>,
    home: Seq<char>,
    oks: Seq<bool>,
    enter: bool,
    r: bool,
) -> bool {
    match find_window_spec(ws, reference) {
        Some(i) => if tab_pane_spec(ws[i], pane_out, home).len() > 0 {
            &&& steps_after(oks, enter) is Done
            &&& forall|k: int| 0 <= k < oks.len() ==> !(steps_after(#[trigger] oks.take(k), enter) is Done)
            &&& r == (steps_after(oks, enter) == SendStep::Done(true))
        } else {
            !r
        },
        None => !r,
    }
}

// ---------------------------------------------------------------------------
// Capturing and sending
// ---------------------------------------------------------------------------

fn word(s: &str) -> (r: String)
    ensures
        r@ == s@,
{
    String::from_str(s)
}

/// `capture-pane -p -t <pane> -S -200`: the pane's last 200 lines.
pub open spec fn capture_command_spec(pane: Seq<char>) -> Seq<Seq<char>> {
    seq!["capture-pane"@, "-p"@, "-t"@, pane, "-S"@, "-200"@]
}

/// The command that captures a pane's text.
pub fn capture_command(pane: &str) -> (r: Vec<String>)
    ensures
        string_views(r@) == capture_command_spec(pane@),
{
    let r = vec![word("capture-pane"), word("-p"), word("-t"), word(pane), word("-S"), word("-200")];
    assert(string_views(r@) =~= capture_command_spec(pane@));
    r
}

/// What a capture gives: tmux's reply, or nothing when the command failed.
pub fn capture_reply(reply: std::io::Result<String>) -> (r: Option<String>)
    ensures
        match reply {
            Ok(v) => r matches Some(t) && t@ == v@,
            Err(_) => r is None,
        },
{
    match reply {
        Ok(text) => Some(text),
        Err(_) => None,
    }
}

/// The steps of sending text to a pane: load the text into tmux's buffer,
/// paste it, press Enter; `Done` carries whether the text was pasted.
pub enum SendStep {
    SetBuffer,
    Paste,
    PressEnter,
    Done(bool),
}

/// The step after `step` when tmux answered `ok`: a failed set-buffer or
/// paste ends the send unsent; a paste is followed by Enter only when
/// `enter` is set; the send succeeds once the paste succeeded, whatever
/// Enter gives.
pub open spec fn send_next_spec(step: SendStep, ok: bool, enter: bool) -> SendStep {
    match step {
        SendStep::SetBuffer => if ok {
            SendStep::Paste
        } else {
            SendStep::Done(false)
        },
        SendStep::Paste => if !ok {
            SendStep::Done(false)
        } else if enter {
            SendStep::PressEnter
        } else {
            SendStep::Done(true)
        },
        SendStep::PressEnter => SendStep::Done(true),
        SendStep::Done(b) => SendStep::Done(b),
    }
}

pub open spec fn steps_left(step: SendStep) -> nat {
    match step {
        SendStep::SetBuffer => 3,
        SendStep::Paste => 2,
        SendStep::PressEnter => 1,
        SendStep::Done(_) => 0,
    }
}

/// The command of a step: `set-buffer -- <text>`, `paste-buffer -t <pane>`,
/// `send-keys -t <pane> Enter`; none once done.
pub open spec fn send_command_spec(step: SendStep, pane: Seq<char>, text: Seq<char>) -> Seq<Seq<char>> {
    match step {
        SendStep::SetBuffer => seq!["set-buffer"@, "--"@, text],
        SendStep::Paste => seq!["paste-buffer"@, "-t"@, pane],
        SendStep::PressEnter => seq!["send-keys"@, "-t"@, pane, "Enter"@],
        SendStep::Done(_) => seq![],
    }
}

pub fn send_command(step: &SendStep, pane: &str, text: &str) -> (r: Vec<String>)
    ensures
        string_views(r@) == send_command_spec(*step, pane@, text@),
{
    let r = match step {
        SendStep::SetBuffer => vec![word("set-buffer"), word("--"), word(text)],
        SendStep::Paste => vec![word("paste-buffer"), word("-t"), word(pane)],
        SendStep::PressEnter => vec![word("send-keys"), word("-t"), word(pane), word("Enter")],
        SendStep::Done(_) => Vec::new(),
    };
    assert(string_views(r@) =~= send_command_spec(*step, pane@, text@));
    r
}

pub fn send_next(step: &SendStep, ok: bool, enter: bool) -> (r: SendStep)
    ensures
        r == send_next_spec(*step, ok, enter),
{
    match step {
        SendStep::SetBuffer => if ok {
            SendStep::Paste
        } else {
            SendStep::Done(false)
        },
        SendStep::Paste => if !ok {
            SendStep::Done(false)
        } else if enter {
            SendStep::PressEnter
        } else {
            SendStep::Done(true)
        },
        SendStep::PressEnter => SendStep::Done(true),
        SendStep::Done(b) => SendStep::Done(*b),
    }
}

/// Whether the send is over.
pub fn step_done(step: &SendStep) -> (r: bool)
    ensures
        r == (*step is Done),
{
    match step {
        SendStep::Done(_) => true,
        _ => false,
    }
}

/// Captures the last 200 lines of the referenced tab's pane: the tab's
/// recorded pane, else the pane tmux reports for it (`target_pane`), with
/// `capture_command`, the reply read by `capture_reply`; `None` when no tab
/// matches, it has no pane, or tmux fails.
pub fn capture_tab<T: Tmux>(t: &T, ctx: &Ctx, cache: &CacheFiles, reference: &str) -> (r: Option<
    String,
>)
    ensures
        normalize_ref_spec(reference@).len() == 0 ==> r is None,
        exists|ws: Seq<Window>, pane_out: Seq<char>, reply: Option<Seq<char>>|
            listed_windows(ws, *ctx, *cache) && #[trigger] capture_outcome(
                ws,
                reference@,
                pane_out,
                ctx.home@,
                reply,
            ) == opt_view(r),
{
    let windows = tmux_windows(t, ctx, cache);
    assert(listed_windows(windows@, *ctx, *cache));
    let window = match find_window(windows.as_slice(), reference) {
        Some(w) => w,
        None => {
            assert(capture_outcome(windows@, reference@, Seq::<char>::empty(), ctx.home@, None) == opt_view(
                None,
            ));
            return None;
        },
    };
    let pane = target_pane(t, ctx, window);
    let ghost out = choose|out: Seq<char>| #[trigger] tab_pane_spec(*window, out, ctx.home@) == pane@;
    if pane.as_str().is_empty() {
        assert(capture_outcome(windows@, reference@, out, ctx.home@, None) == opt_view(None));
        return None;
    }
    let reply = run_words(t, &capture_command(pane.as_str()));
    let ghost rv: Option<Seq<char>> = match &reply {
        Ok(v) => Some(v@),
        Err(_) => None,
    };
    let r = capture_reply(reply);
    assert(capture_outcome(windows@, reference@, out, ctx.home@, rv) == opt_view(r));
    r
}

/// Pastes `text` into the referenced tab's pane (`target_pane`), pressing
/// Enter after it when `enter` is set: the commands of the `SendStep`s, in
/// the order `send_next` gives; false when no tab matches, it has no pane,
/// or setting or pasting the buffer fails.
pub fn send_to_tab<T: Tmux>(
    t: &T,
    ctx: &Ctx,
    cache: &CacheFiles,
    reference: &str,
    text: &str,
    enter: bool,
) -> (r: bool)
    ensures
        normalize_ref_spec(reference@).len() == 0 ==> !r,
        exists|ws: Seq<Window>, pane_out: Seq<char>, oks: Seq<bool>|
            listed_windows(ws, *ctx, *cache) && #[trigger] send_outcome(
                ws,
                reference@,
                pane_out,
                ctx.home@,
                oks,
                enter,
                r,
            ),
{
    let windows = tmux_windows(t, ctx, cache);
    assert(listed_windows(windows@, *ctx, *cache));
    let window = match find_window(windows.as_slice(), reference) {
        Some(w) => w,
        None => {
            assert(send_outcome(windows@, reference@, Seq::<char>::empty(), ctx.home@, seq![], enter, false));
            return false;
        },
    };
    let pane = target_pane(t, ctx, window);
    let ghost out = choose|out: Seq<char>| #[trigger] tab_pane_spec(*window, out, ctx.home@) == pane@;
    if pane.as_str().is_empty() {
        assert(send_outcome(windows@, reference@, out, ctx.home@, seq![], enter, false));
        return false;
    }
    let mut step = SendStep::SetBuffer;
    let ghost mut oks: Seq<bool> = seq![];
    while !step_done(&step)
        invariant
            step == steps_after(oks, enter),
            forall|k: int| 0 <= k < oks.len() ==> !(steps_after(#[trigger] oks.take(k), enter) is Done),
        decreases steps_left(step),
    {
        let reply = run_words(t, &send_command(&step, pane.as_str(), text));
        let ok = reply.is_ok();
        let ghost before = oks;
        step = send_next(&step, ok, enter);
        proof {
            oks = oks.push(ok);
            assert(oks.drop_last() =~= before);
            assert forall|k: int| 0 <= k < oks.len() implies !(steps_after(#[trigger] oks.take(k), enter) is Done) by {
                if k < before.len() {
                    assert(oks.take(k) =~= before.take(k));
                } else {
                    assert(oks.take(k) =~= before);
                }
            }
        }
    }
    let r = match step {
        SendStep::Done(sent) => sent,
        _ => false,
    };
    assert(send_outcome(windows@, reference@, out, ctx.home@, oks, enter, r));
    r
}

// ---------------------------------------------------------------------------
// Laws of reference resolution
// ---------------------------------------------------------------------------

proof fn lemma_first_index_match(ws: Seq<Window>, q: Seq<char>, k: int)
    requires
        0 <= k,
    ensures
        match first_index_match(ws, q, k) {
            Some(i) => k <= i < ws.len() && ws[i].index@ == q,
            None => forall|j: int| k <= j < ws.len() ==> ws[j].index@ != q,
        },
    decreases ws.len() - k,
{
    if k < ws.len() && ws[k].index@ != q {
        lemma_first_index_match(ws, q, k + 1);
    }
}

proof fn lemma_first_exact_match(ws: Seq<Window>, q: Seq<char>, k: int)
    requires
        0 <= k,
    ensures
        match first_exact_match(ws, q, k) {
            Some(i) => k <= i < ws.len() && exact_match(ws[i], q),
            None => forall|j: int| k <= j < ws.len() ==> !exact_match(ws[j], q),
        },
    decreases ws.len() - k,
{
    if k < ws.len() && !exact_match(ws[k], q) {
        lemma_first_exact_match(ws, q, k + 1);
    }
}

proof fn lemma_first_partial_match(ws: Seq<Window>, q: Seq<char>, k: int)
    requires
        0 <= k,
    ensures
        match first_partial_match(ws, q, k) {
            Some(i) => k <= i < ws.len() && partial_match(ws[i], q),
            None => forall|j: int| k <= j < ws.len() ==> !partial_match(ws[j], q),
        },
    decreases ws.len() - k,
{
    if k < ws.len() && !partial_match(ws[k], q) {
        lemma_first_partial_match(ws, q, k + 1);
    }
}

/// A window matches a query when its index is the query or one of its
/// fields, lowercased, contains it.
pub open spec fn matches_query(w: Window, q: Seq<char>) -> bool {
    w.index@ == q || partial_match(w, q)
}

/// A tab reference resolves to a window that matches it; it resolves to
/// nothing only when it is empty or no window matches it; and when some
/// window matches it by index or exactly, the window it resolves to does
/// too: an exact match is never passed over for a partial one.
pub proof fn lemma_reference_resolution(ws: Seq<Window>, reference: Seq<char>, j: int)
    ensures
        ({
            let q = normalize_ref_spec(reference);
            &&& find_window_spec(ws, reference) matches Some(i) ==> 0 <= i < ws.len()
                && matches_query(ws[i], q)
            &&& find_window_spec(ws, reference) is None ==> (q.len() == 0 || forall|k: int|
                0 <= k < ws.len() ==> !matches_query(#[trigger] ws[k], q))
            &&& (0 <= j < ws.len() && q.len() > 0 && (ws[j].index@ == q || exact_match(ws[j], q)))
                ==> (find_window_spec(ws, reference) matches Some(i) && (ws[i].index@ == q
                || exact_match(ws[i], q)))
        }),
{
    let q = normalize_ref_spec(reference);
    lemma_first_index_match(ws, q, 0);
    lemma_first_exact_match(ws, q, 0);
    lemma_first_partial_match(ws, q, 0);
    if let Some(i) = first_exact_match(ws, q, 0) {
        let k = choose|k: int| 0 <= k < 6 && lowercase(#[trigger] named_fields(ws[i])[k]) == q;
        let f = lowercase(named_fields(ws[i])[k]);
        assert(f.subrange(0, q.len() as int) =~= q);
        assert(occurs_at(f, q, 0));
        assert(contains_seq(f, q));
        assert(partial_match(ws[i], q));
    }
    if find_window_spec(ws, reference) is None && q.len() > 0 {
        assert forall|k: int| 0 <= k < ws.len() implies !matches_query(#[trigger] ws[k], q) by {
            assert(ws[k].index@ != q);
            assert(!partial_match(ws[k], q));
        }
    }
}

} // verus!
