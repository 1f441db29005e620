//! Terminal descriptions: deciding when a window's content changed enough to
//! describe it again, building the prompt, reading the model's answer and
//! the cached description records.
//!
//! Running the describing tools and the files they read and write are the
//! caller's part; everything decided here is a function of plain values.
use std::hash::Hasher;
use vstd::std_specs::hash::DefaultHasherAdditionalSpecFns;
use vstd::prelude::*;

use crate::json::{escape_seq, field_text_spec, json_field, push_escaped};
use crate::sections::unescape_char;
use crate::text::{
    chars_eq, chars_of, contains_chars, contains_seq, is_whitespace, is_ws, line_bounds, lines_of,
    push_char, push_range, push_str, string_of, string_of_range, sub_vec, trim_bounds, trim_end_ws,
    trim_ws,
};
use crate::agent::capture_command;
use crate::tmux::{
    active_pane, active_pane_spec, pane_records_spec, pane_var, reply_text, run_words, Tmux,
};

verus! {

// ---------------------------------------------------------------------------
// Normalising captured text
// ---------------------------------------------------------------------------

/// The last `n` characters of `s`.
pub open spec fn tail(s: Seq<char>, n: int) -> Seq<char> {
    if s.len() > n {
        s.skip(s.len() - n)
    } else {
        s
    }
}

/// The first `n` characters of `s`.
pub open spec fn head(s: Seq<char>, n: int) -> Seq<char> {
    if s.len() > n {
        s.take(n)
    } else {
        s
    }
}

/// The non-blank lines, trailing whitespace removed.
pub open spec fn kept_lines(lines: Seq<Seq<char>>) -> Seq<Seq<char>>
    decreases lines.len(),
{
    if lines.len() == 0 {
        seq![]
    } else {
        kept_lines(lines.drop_last()) + (if trim_ws(lines.last()).len() == 0 {
            seq![]
        } else {
            seq![trim_end_ws(lines.last())]
        })
    }
}

/// Lines joined with newlines.
pub open spec fn join_lines(lines: Seq<Seq<char>>) -> Seq<char>
    decreases lines.len(),
{
    if lines.len() == 0 {
        seq![]
    } else if lines.len() == 1 {
        lines[0]
    } else {
        join_lines(lines.drop_last()) + seq!['\n'] + lines.last()
    }
}

/// Captured text as compared and sent: blank lines dropped, line ends
/// trimmed, at most the last 12000 characters.
pub open spec fn normalize_spec(text: Seq<char>) -> Seq<char> {
    tail(join_lines(kept_lines(lines_of(text))), 12000)
}

/// The end of `v[a..b]` with trailing whitespace removed.
fn trim_end_from(v: &Vec<char>, a: usize, b: usize) -> (e: usize)
    requires
        a <= b <= v.len(),
    ensures
        a <= e <= b,
        v@.subrange(a as int, e as int) == trim_end_ws(v@.subrange(a as int, b as int)),
{
    let ghost l = v@.subrange(a as int, b as int);
    let mut e = b;
    assert(l.take(l.len() as int) =~= l);
    while e > a && is_whitespace(v[e - 1])
        invariant
            a <= e <= b <= v.len(),
            l == v@.subrange(a as int, b as int),
            trim_end_ws(l) == trim_end_ws(l.take(e - a)),
        decreases e,
    {
        assert(l.take(e - a).last() == v@[e - 1]);
        assert(l.take(e - a).drop_last() =~= l.take(e - a - 1));
        e -= 1;
    }
    proof {
        assert(l.take(e - a) =~= v@.subrange(a as int, e as int));
        if e > a {
            assert(l.take(e - a).last() == v@[e - 1]);
        }
    }
    e
}

/// The last `n` characters of `v` as a string.
fn tail_string(v: &Vec<char>, n: usize) -> (r: String)
    ensures
        r@ == tail(v@, n as int),
{
    if v.len() > n {
        let r = string_of_range(v.as_slice(), v.len() - n, v.len());
        assert(v@.subrange(v.len() - n, v.len() as int) =~= v@.skip(v.len() - n));
        r
    } else {
        string_of(v.as_slice())
    }
}

fn joined_lines(text: &str) -> (r: Vec<char>)
    ensures
        r@ == join_lines(kept_lines(lines_of(text@))),
{
    let v = chars_of(text);
    let bounds = line_bounds(v.as_slice());
    let ghost lines = lines_of(v@);
    let mut out: Vec<char> = Vec::new();
    let mut any = false;
    let mut k: usize = 0;
    assert(lines.take(0) =~= Seq::<Seq<char>>::empty());
    while k < bounds.len()
        invariant
            k <= bounds.len(),
            lines == lines_of(v@),
            v@ == text@,
            any == (kept_lines(lines.take(k as int)).len() > 0),
            bounds@.len() == lines.len(),
            forall|q: int|
                0 <= q < bounds@.len() ==> {
                    &&& (#[trigger] bounds@[q]).0 <= bounds@[q].1 <= v@.len()
                    &&& v@.subrange(bounds@[q].0 as int, bounds@[q].1 as int) == lines[q]
                },
            out@ == join_lines(kept_lines(lines.take(k as int))),
        decreases bounds.len() - k,
    {
        let (a, b) = bounds[k];
        let line = sub_vec(v.as_slice(), a, b);
        let (ta, tb) = trim_bounds(line.as_slice());
        let ghost before = kept_lines(lines.take(k as int));
        proof {
            let t = lines.take(k as int + 1);
            assert(t.drop_last() =~= lines.take(k as int));
            assert(t.last() == line@);
        }
        if ta < tb {
            let e = trim_end_from(&line, 0, line.len());
            assert(line@.subrange(0, line@.len() as int) =~= line@);
            if any {
                out.push('\n');
            }
            any = true;
            crate::model::append_chars(&mut out, sub_vec(line.as_slice(), 0, e).as_slice());
            proof {
                let nk = before.push(trim_end_ws(line@));
                assert(kept_lines(lines.take(k as int + 1)) =~= nk);
                if before.len() == 0 {
                    assert(join_lines(before) == Seq::<char>::empty());
                    assert(out@ =~= join_lines(nk));
                } else {
                    assert(nk.drop_last() =~= before);
                    assert(out@ =~= join_lines(nk));
                }
            }
        } else {
            assert(kept_lines(lines.take(k as int + 1)) =~= before);
        }
        k += 1;
    }
    assert(lines.take(bounds.len() as int) =~= lines);
    out
}

/// Drops blank lines, trims line ends and keeps the last 12000 characters.
pub fn normalize_capture(text: &str) -> (r: String)
    ensures
        r@ == normalize_spec(text@),
{
    let joined = joined_lines(text);
    tail_string(&joined, 12000)
}

// ---------------------------------------------------------------------------
// Signatures
// ---------------------------------------------------------------------------

/// The writes that `Hash::hash` for `str` makes on a hasher: the text's
/// UTF-8 bytes, then the byte `0xff`. They depend on the text alone.
pub uninterp spec fn str_hash_writes(s: Seq<char>) -> Seq<Seq<u8>>;

/// `Hash::hash` for `str` on a `DefaultHasher`: the hasher's state, as the
/// sequence of writes it has taken in, gains the text's writes.
#[verifier::external_body]
fn hash_str(s: &str, h: &mut std::collections::hash_map::DefaultHasher)
    ensures
        final(h)@ == old(h)@ + str_hash_writes(s@),
{
    std::hash::Hash::hash(s, h)
}

pub open spec fn hex_char(d: nat) -> char {
    if d < 10 {
        crate::text::digit_char(d)
    } else if d == 10 {
        'a'
    } else if d == 11 {
        'b'
    } else if d == 12 {
        'c'
    } else if d == 13 {
        'd'
    } else if d == 14 {
        'e'
    } else {
        'f'
    }
}

/// The lowest `count` hexadecimal digits of `n`, most significant first.
pub open spec fn hex_digits(n: nat, count: nat) -> Seq<char>
    decreases count,
{
    if count == 0 {
        seq![]
    } else {
        hex_digits(n / 16, (count - 1) as nat).push(hex_char(n % 16))
    }
}

fn hex_digit(d: u64) -> (c: char)
    requires
        d < 16,
    ensures
        c == hex_char(d as nat),
{
    if d < 10 {
        if d == 0 {
            '0'
        } else if d == 1 {
            '1'
        } else if d == 2 {
            '2'
        } else if d == 3 {
            '3'
        } else if d == 4 {
            '4'
        } else if d == 5 {
            '5'
        } else if d == 6 {
            '6'
        } else if d == 7 {
            '7'
        } else if d == 8 {
            '8'
        } else {
            '9'
        }
    } else if d == 10 {
        'a'
    } else if d == 11 {
        'b'
    } else if d == 12 {
        'c'
    } else if d == 13 {
        'd'
    } else if d == 14 {
        'e'
    } else {
        'f'
    }
}

fn push_hex(s: &mut String, n: u64, count: u64)
    ensures
        final(s)@ == old(s)@ + hex_digits(n as nat, count as nat),
    decreases count,
{
    if count == 0 {
        assert(old(s)@ + Seq::<char>::empty() =~= old(s)@);
        return;
    }
    push_hex(s, n / 16, count - 1);
    push_char(s, hex_digit(n % 16));
    assert(old(s)@ + hex_digits((n / 16) as nat, (count - 1) as nat) + seq![hex_char((n % 16) as nat)]
        =~= old(s)@ + hex_digits(n as nat, count as nat));
}

/// The 16-digit lowercase hexadecimal form of a hash, as `{:016x}` writes it.
pub fn hex16(h: u64) -> (r: String)
    ensures
        r@ == hex_digits(h as nat, 16),
{
    let mut s = String::new();
    push_hex(&mut s, h, 16);
    assert(Seq::<char>::empty() + hex_digits(h as nat, 16) =~= hex_digits(h as nat, 16));
    s
}

/// The fingerprint of a capture: the standard library's default hash of
/// the normalised text.
pub open spec fn signature_hash(text: Seq<char>) -> u64 {
    std::collections::hash_map::DefaultHasher::spec_finish(
        Seq::<Seq<u8>>::empty() + str_hash_writes(normalize_spec(text)),
    )
}

/// A fingerprint of the normalised text: the standard library's default
/// hash of it in 16 lowercase hexadecimal digits.
pub fn signature(text: &str) -> (r: String)
    ensures
        r@ == hex_digits(signature_hash(text@) as nat, 16),
{
    let n = normalize_capture(text);
    let mut h = std::collections::hash_map::DefaultHasher::new();
    hash_str(n.as_str(), &mut h);
    let v = h.finish();
    hex16(v)
}

// ---------------------------------------------------------------------------
// Significant change
// ---------------------------------------------------------------------------

/// Length of the common prefix of `a` and `b` from `i`.
pub open spec fn common_prefix_from(a: Seq<char>, b: Seq<char>, i: int) -> int
    decreases a.len() - i,
{
    if 0 <= i < a.len() && i < b.len() && a[i] == b[i] {
        common_prefix_from(a, b, i + 1)
    } else {
        i
    }
}

/// Length of the common suffix of `a` and `b`, at most `limit`, from `s`.
pub open spec fn common_suffix_from(a: Seq<char>, b: Seq<char>, limit: int, s: int) -> int
    decreases limit - s,
{
    if 0 <= s < limit && a[a.len() - 1 - s] == b[b.len() - 1 - s] {
        common_suffix_from(a, b, limit, s + 1)
    } else {
        s
    }
}

pub open spec fn min_len(a: Seq<char>, b: Seq<char>) -> int {
    if a.len() < b.len() {
        a.len() as int
    } else {
        b.len() as int
    }
}

/// Characters shared at the two ends: the common prefix, then the common
/// suffix of what the prefix leaves of the shorter text.
pub open spec fn shared_ends(a: Seq<char>, b: Seq<char>) -> int {
    let p = common_prefix_from(a, b, 0);
    p + common_suffix_from(a, b, min_len(a, b) - p, 0)
}

proof fn lemma_common_prefix_bounds(a: Seq<char>, b: Seq<char>, i: int)
    requires
        0 <= i <= min_len(a, b),
    ensures
        i <= common_prefix_from(a, b, i) <= min_len(a, b),
    decreases a.len() - i,
{
    if 0 <= i < a.len() && i < b.len() && a[i] == b[i] {
        lemma_common_prefix_bounds(a, b, i + 1);
    }
}

proof fn lemma_common_suffix_bounds(a: Seq<char>, b: Seq<char>, limit: int, s: int)
    requires
        0 <= s <= limit,
    ensures
        s <= common_suffix_from(a, b, limit, s) <= limit,
    decreases limit - s,
{
    if 0 <= s < limit && a[a.len() - 1 - s] == b[b.len() - 1 - s] {
        lemma_common_suffix_bounds(a, b, limit, s + 1);
    }
}

/// The number of characters `a` and `b` share at their ends.
pub fn shared_end_chars(a: &Vec<char>, b: &Vec<char>) -> (m: usize)
    ensures
        m == shared_ends(a@, b@),
        m <= a@.len(),
        m <= b@.len(),
{
    let min = if a.len() < b.len() {
        a.len()
    } else {
        b.len()
    };
    let mut p: usize = 0;
    while p < min && a[p] == b[p]
        invariant
            p <= min,
            min == min_len(a@, b@),
            common_prefix_from(a@, b@, 0) == common_prefix_from(a@, b@, p as int),
        decreases min - p,
    {
        p += 1;
    }
    let mut s: usize = 0;
    while s < min - p && a[a.len() - 1 - s] == b[b.len() - 1 - s]
        invariant
            p <= min,
            min == min_len(a@, b@),
            s <= min - p,
            common_prefix_from(a@, b@, 0) == p,
            common_suffix_from(a@, b@, min - p, 0) == common_suffix_from(a@, b@, min - p, s as int),
        decreases min - p - s,
    {
        s += 1;
    }
    p + s
}

/// Whether captured text changed enough to describe it again: new content
/// after none, or ends shared by less than 85% of the last 4000 characters
/// of each (twice the shared characters against both lengths).
pub open spec fn changed_spec(old: Seq<char>, new: Seq<char>) -> bool {
    let o = normalize_spec(old);
    let n = normalize_spec(new);
    if o.len() == 0 && n.len() > 0 {
        true
    } else if n.len() == 0 || o == n {
        false
    } else {
        let a = tail(o, 4000);
        let b = tail(n, 4000);
        40 * shared_ends(a, b) < 17 * (a.len() + b.len())
    }
}

fn tail_vec(v: &Vec<char>, n: usize) -> (r: Vec<char>)
    ensures
        r@ == tail(v@, n as int),
{
    if v.len() > n {
        let r = sub_vec(v.as_slice(), v.len() - n, v.len());
        assert(v@.subrange(v.len() - n, v.len() as int) =~= v@.skip(v.len() - n));
        r
    } else {
        sub_vec(v.as_slice(), 0, v.len())
    }
}

/// Whether the content moved on from `old` to `new` enough to describe it
/// again.
pub fn changed_significantly(old: &str, new: &str) -> (r: bool)
    ensures
        r == changed_spec(old@, new@),
{
    let o = normalize_capture(old);
    let n = normalize_capture(new);
    let ov = chars_of(o.as_str());
    let nv = chars_of(n.as_str());
    if ov.len() == 0 && nv.len() > 0 {
        return true;
    }
    if nv.len() == 0 || chars_eq(ov.as_slice(), nv.as_slice()) {
        return false;
    }
    let a = tail_vec(&ov, 4000);
    let b = tail_vec(&nv, 4000);
    let m = shared_end_chars(&a, &b);
    40 * (m as u64) < 17 * (a.len() as u64 + b.len() as u64)
}

/// Whether a window needs a new description: its capture is not blank, its
/// signature differs from the cached one, and it changed significantly
/// since the cached sample (when there is one).
pub open spec fn needs_description_spec(
    captured: Seq<char>,
    cached_signature: Seq<char>,
    cached_sample: Seq<char>,
    current_signature: Seq<char>,
) -> bool {
    trim_ws(captured).len() > 0 && cached_signature != current_signature && (cached_sample.len()
        == 0 || changed_spec(cached_sample, captured))
}

/// Whether a window needs a new description.
pub fn needs_description(
    captured: &str,
    cached_signature: &str,
    cached_sample: &str,
    current_signature: &str,
) -> (r: bool)
    ensures
        r == needs_description_spec(captured@, cached_signature@, cached_sample@, current_signature@),
{
    let t = crate::text::trim(captured);
    if t.as_str().is_empty() {
        return false;
    }
    if crate::text::str_is(cached_signature, current_signature) {
        return false;
    }
    if !cached_sample.is_empty() && !changed_significantly(cached_sample, captured) {
        return false;
    }
    true
}

// ---------------------------------------------------------------------------
// The prompt and the model's answer
// ---------------------------------------------------------------------------

/// The instructions that open every prompt.
pub const PROMPT_HEAD: &'static str = "Describe what this terminal session is currently doing. Do not include secrets, keys, tokens, or private data. Output only compact JSON with two string fields: name (2-4 words, suitable for a tmux tab/window name) and description (at most 12 words).\n\nTerminal content:\n";

/// The prompt for a capture: the instructions, then the last 8000
/// characters of the normalised text.
pub open spec fn prompt_spec(captured: Seq<char>) -> Seq<char> {
    PROMPT_HEAD@ + tail(normalize_spec(captured), 8000)
}

pub fn prompt(captured: &str) -> (r: String)
    ensures
        r@ == prompt_spec(captured@),
{
    let norm = normalize_capture(captured);
    let nv = chars_of(norm.as_str());
    let t = tail_string(&nv, 8000);
    let mut out = String::from_str(PROMPT_HEAD);
    push_str(&mut out, t.as_str());
    out
}

/// A generated tab name and description.
#[derive(Debug, Clone, PartialEq, Eq)]
pub struct GeneratedMetadata {
    pub name: String,
    pub description: String,
}

/// The first line of a text, or empty.
pub open spec fn first_line(s: Seq<char>) -> Seq<char> {
    if lines_of(s).len() > 0 {
        lines_of(s)[0]
    } else {
        seq![]
    }
}

/// Unicode control characters (general category Cc).
pub open spec fn is_control(c: char) -> bool {
    c <= '\u{1f}' || ('\u{7f}' <= c && c <= '\u{9f}')
}

pub open spec fn drop_controls(s: Seq<char>) -> Seq<char>
    decreases s.len(),
{
    if s.len() == 0 {
        seq![]
    } else {
        drop_controls(s.drop_last()) + (if is_control(s.last()) {
            seq![]
        } else {
            seq![s.last()]
        })
    }
}

/// A tab name: the first line, trimmed, without control characters, at
/// most 40 characters.
pub open spec fn clean_name_spec(name: Seq<char>) -> Seq<char> {
    head(drop_controls(trim_ws(first_line(name))), 40)
}

/// A description: the first line, trimmed, at most 200 characters.
pub open spec fn clean_description_spec(d: Seq<char>) -> Seq<char> {
    head(trim_ws(first_line(d)), 200)
}

fn first_line_chars(s: &str) -> (r: Vec<char>)
    ensures
        r@ == first_line(s@),
{
    let v = chars_of(s);
    let bounds = line_bounds(v.as_slice());
    if bounds.len() > 0 {
        let (a, b) = bounds[0];
        sub_vec(v.as_slice(), a, b)
    } else {
        Vec::new()
    }
}

fn head_string(v: &Vec<char>, n: usize) -> (r: String)
    ensures
        r@ == head(v@, n as int),
{
    if v.len() > n {
        string_of_range(v.as_slice(), 0, n)
    } else {
        string_of(v.as_slice())
    }
}

fn trimmed(v: &Vec<char>) -> (r: Vec<char>)
    ensures
        r@ == trim_ws(v@),
{
    let (a, b) = trim_bounds(v.as_slice());
    sub_vec(v.as_slice(), a, b)
}

/// Cleans a generated tab name.
pub fn clean_tab_name(name: &str) -> (r: String)
    ensures
        r@ == clean_name_spec(name@),
{
    let t = trimmed(&first_line_chars(name));
    let mut kept: Vec<char> = Vec::new();
    let mut k: usize = 0;
    assert(t@.take(0) =~= Seq::<char>::empty());
    while k < t.len()
        invariant
            k <= t.len(),
            kept@ == drop_controls(t@.take(k as int)),
        decreases t.len() - k,
    {
        let c = t[k];
        if !(c <= '\u{1f}' || ('\u{7f}' <= c && c <= '\u{9f}')) {
            kept.push(c);
        }
        proof {
            let s = t@.take(k as int + 1);
            assert(s.drop_last() =~= t@.take(k as int));
            assert(s.last() == c);
            assert(kept@ =~= drop_controls(s));
        }
        k += 1;
    }
    assert(t@.take(t.len() as int) =~= t@);
    head_string(&kept, 40)
}

/// Cleans a generated description.
pub fn clean_description(description: &str) -> (r: String)
    ensures
        r@ == clean_description_spec(description@),
{
    let t = trimmed(&first_line_chars(description));
    head_string(&t, 200)
}

/// Lines that carry no answer: empty ones, escape sequences and box drawing.
pub open spec fn decoration_line(t: Seq<char>) -> bool {
    t.len() == 0 || t[0] == '\u{1b}' || t[0] == '╭' || t[0] == '│' || t[0] == '╰'
}

/// The first line that is not decoration, trimmed, at most 500 characters.
pub open spec fn first_content_in(lines: Seq<Seq<char>>) -> Seq<char>
    decreases lines.len(),
{
    if lines.len() == 0 {
        seq![]
    } else if decoration_line(trim_ws(lines[0])) {
        first_content_in(lines.drop_first())
    } else {
        head(trim_ws(lines[0]), 500)
    }
}

/// The first trimmed line that opens a JSON object holding a description,
/// else the first content line.
pub open spec fn payload_in(lines: Seq<Seq<char>>, all: Seq<Seq<char>>) -> Seq<char>
    decreases lines.len(),
{
    if lines.len() == 0 {
        first_content_in(all)
    } else {
        let t = trim_ws(lines[0]);
        if t.len() > 0 && t[0] == '{' && contains_seq(t, "\"description\""@) {
            t
        } else {
            payload_in(lines.drop_first(), all)
        }
    }
}

pub open spec fn payload_spec(output: Seq<char>) -> Seq<char> {
    payload_in(lines_of(output), lines_of(output))
}

/// The first content line of the model's output.
pub fn first_content_line(output: &str) -> (r: String)
    ensures
        r@ == first_content_in(lines_of(output@)),
{
    let v = chars_of(output);
    let bounds = line_bounds(v.as_slice());
    let ghost lines = lines_of(v@);
    let mut k: usize = 0;
    assert(lines.skip(0) =~= lines);
    while k < bounds.len()
        invariant
            k <= bounds.len(),
            lines == lines_of(v@),
            v@ == output@,
            bounds@.len() == lines.len(),
            forall|q: int|
                0 <= q < bounds@.len() ==> {
                    &&& (#[trigger] bounds@[q]).0 <= bounds@[q].1 <= v@.len()
                    &&& v@.subrange(bounds@[q].0 as int, bounds@[q].1 as int) == lines[q]
                },
            first_content_in(lines) == first_content_in(lines.skip(k as int)),
        decreases bounds.len() - k,
    {
        let (a, b) = bounds[k];
        let t = trimmed(&sub_vec(v.as_slice(), a, b));
        proof {
            let s = lines.skip(k as int);
            assert(s[0] == lines[k as int]);
            assert(s.drop_first() =~= lines.skip(k as int + 1));
        }
        if !(t.len() == 0 || t[0] == '\u{1b}' || t[0] == '╭' || t[0] == '│' || t[0] == '╰') {
            return head_string(&t, 500);
        }
        k += 1;
    }
    assert(lines.skip(bounds.len() as int) =~= Seq::<Seq<char>>::empty());
    String::new()
}

/// The line of the model's output that holds its JSON answer.
pub fn json_payload(output: &str) -> (r: String)
    ensures
        r@ == payload_spec(output@),
{
    let v = chars_of(output);
    let bounds = line_bounds(v.as_slice());
    let ghost lines = lines_of(v@);
    let key = chars_of("\"description\"");
    let mut k: usize = 0;
    assert(lines.skip(0) =~= lines);
    while k < bounds.len()
        invariant
            k <= bounds.len(),
            lines == lines_of(v@),
            v@ == output@,
            key@ == "\"description\""@,
            bounds@.len() == lines.len(),
            forall|q: int|
                0 <= q < bounds@.len() ==> {
                    &&& (#[trigger] bounds@[q]).0 <= bounds@[q].1 <= v@.len()
                    &&& v@.subrange(bounds@[q].0 as int, bounds@[q].1 as int) == lines[q]
                },
            payload_in(lines, lines) == payload_in(lines.skip(k as int), lines),
        decreases bounds.len() - k,
    {
        let (a, b) = bounds[k];
        let t = trimmed(&sub_vec(v.as_slice(), a, b));
        proof {
            let s = lines.skip(k as int);
            assert(s[0] == lines[k as int]);
            assert(s.drop_first() =~= lines.skip(k as int + 1));
        }
        if t.len() > 0 && t[0] == '{' && contains_chars(t.as_slice(), key.as_slice()) {
            return string_of(t.as_slice());
        }
        k += 1;
    }
    assert(lines.skip(bounds.len() as int) =~= Seq::<Seq<char>>::empty());
    first_content_line(output)
}

/// The name and description read from the model's output: from its JSON
/// answer when either is there, else the first line as the description.
pub open spec fn metadata_spec(output: Seq<char>) -> (Seq<char>, Seq<char>) {
    let text = payload_spec(output);
    let name = clean_name_spec(field_text_spec(text, "name"@));
    let description = clean_description_spec(field_text_spec(text, "description"@));
    if name.len() > 0 || description.len() > 0 {
        (name, description)
    } else {
        (seq![], clean_description_spec(text))
    }
}

/// Reads the model's output into a name and description.
pub fn parse_generated_metadata(output: &str) -> (r: GeneratedMetadata)
    ensures
        (r.name@, r.description@) == metadata_spec(output@),
{
    let text = json_payload(output);
    let name = clean_tab_name(json_field(text.as_str(), "name").as_str());
    let description = clean_description(json_field(text.as_str(), "description").as_str());
    if !name.as_str().is_empty() || !description.as_str().is_empty() {
        return GeneratedMetadata { name, description };
    }
    GeneratedMetadata { name: String::new(), description: clean_description(text.as_str()) }
}

/// Generated names are kept in the cache and never applied to tmux windows.
pub fn should_rename_window(_generated: &GeneratedMetadata) -> (r: bool)
    ensures
        !r,
{
    false
}

// ---------------------------------------------------------------------------
// Cache records
// ---------------------------------------------------------------------------

/// The signature and sample of a cached record's text.
pub fn cached_record_fields(text: &str) -> (r: (String, String))
    ensures
        r.0@ == field_text_spec(text@, "signature"@),
        r.1@ == field_text_spec(text@, "sample"@),
{
    (json_field(text, "signature"), json_field(text, "sample"))
}

/// The cached record of a description: name, description, the last 4000
/// characters of the normalised capture as its sample, the capture's
/// signature and the window index.
pub open spec fn record_spec(
    name: Seq<char>,
    description: Seq<char>,
    captured: Seq<char>,
    signature: Seq<char>,
    win_index: Seq<char>,
) -> Seq<char> {
    "{\n  \"name\": \""@ + escape_seq(name) + "\",\n  \"description\": \""@ + escape_seq(description)
        + "\",\n  \"sample\": \""@ + escape_seq(tail(normalize_spec(captured), 4000))
        + "\",\n  \"signature\": \""@ + signature + "\",\n  \"window\": \""@ + win_index
        + "\"\n}\n"@
}

/// The text of the cache record for a generated description.
pub fn description_record(
    generated: &GeneratedMetadata,
    captured: &str,
    signature: &str,
    win_index: &str,
) -> (r: String)
    ensures
        r@ == record_spec(generated.name@, generated.description@, captured@, signature@, win_index@),
{
    let n = normalize_capture(captured);
    let sample = tail_string(&chars_of(n.as_str()), 4000);
    let mut out = String::new();
    push_str(&mut out, "{\n  \"name\": \"");
    push_escaped(&mut out, generated.name.as_str());
    push_str(&mut out, "\",\n  \"description\": \"");
    push_escaped(&mut out, generated.description.as_str());
    push_str(&mut out, "\",\n  \"sample\": \"");
    push_escaped(&mut out, sample.as_str());
    push_str(&mut out, "\",\n  \"signature\": \"");
    push_str(&mut out, signature);
    push_str(&mut out, "\",\n  \"window\": \"");
    push_str(&mut out, win_index);
    push_str(&mut out, "\"\n}\n");
    assert(out@ =~= record_spec(generated.name@, generated.description@, captured@, signature@, win_index@));
    out
}

/// What the describer's answer for a window leads to: the record to cache
/// when it gave a description, nothing when it gave none.
pub fn refresh_outcome(
    generated: &GeneratedMetadata,
    captured: &str,
    signature: &str,
    win_index: &str,
) -> (r: Option<String>)
    ensures
        generated.description@.len() == 0 ==> r is None,
        generated.description@.len() > 0 ==> (r matches Some(t) && t@ == record_spec(
            generated.name@,
            generated.description@,
            captured@,
            signature@,
            win_index@,
        )),
{
    if generated.description.as_str().is_empty() {
        None
    } else {
        Some(description_record(generated, captured, signature, win_index))
    }
}

// ---------------------------------------------------------------------------
// Capturing
// ---------------------------------------------------------------------------

/// Whether a pane with this title may be captured: the sidebar's own pane,
/// titled `tmux-tabs`, never is.
pub fn capture_allowed(title: &str) -> (r: bool)
    ensures
        r == (title@ != "tmux-tabs"@),
{
    !crate::text::str_is(title, "tmux-tabs")
}

/// The last 200 lines of a window's representative pane (`active_pane`,
/// then its title with `pane_var`, then `capture_command`, the reply read
/// by `reply_text`); empty when there is no pane, when the pane is the
/// sidebar (`capture_allowed`), or when tmux fails.
pub fn capture_window_text<T: Tmux>(t: &T, win_index: &str, home: &str) -> (r: String)
    ensures
        r@.len() > 0 ==> exists|out: Seq<char>|
            (#[trigger] active_pane_spec(pane_records_spec(out), home@)).len() > 0,
{
    let pane = active_pane(t, win_index, home);
    if pane.as_str().is_empty() {
        return String::new();
    }
    proof {
        let out = choose|out: Seq<char>| #[trigger] active_pane_spec(pane_records_spec(out), home@) == pane@;
        assert(active_pane_spec(pane_records_spec(out), home@).len() > 0);
    }
    let title = pane_var(t, pane.as_str(), "#{pane_title}");
    if !capture_allowed(title.as_str()) {
        return String::new();
    }
    reply_text(run_words(t, &capture_command(pane.as_str())))
}

} // verus!
