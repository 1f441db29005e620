//! Reading back a written section layout.
//!
//! `SectionLayout::to_json` writes `layout_json` and `from_json` reads
//! `parse_sections`; this module proves that reading gives back what was
//! written, for every layout whose names and window ids hold no carriage
//! return, whose ids hold no `]`, and where no id that reads as a `"name"`
//! key is followed in its section by an id with a `:` or one that reads as
//! a `"windows"` key (`lemma_layout_round_trip` gives the exact domain).
use vstd::prelude::*;

use crate::json::{escape_char, escape_seq};
use crate::sections::{
    array_after_colon, layout_json, name_key, parse_sections, scan_string, section_text,
    sections_text, string_after_colon, string_values, unescape_char, window_list_text,
    windows_key, SectionView,
};
use crate::text::{
    contains_seq, find_char, find_char_from, find_from, find_seq, lemma_find_char_from_props,
    lemma_find_from_props, occurs_at,
};

verus! {

// ---------------------------------------------------------------------------
// The literals the writer uses
// ---------------------------------------------------------------------------

proof fn lemma_lit_head()
    ensures
        "{\n  \"sections\": ["@ == seq!['{', '\n', ' ', ' ', '"', 's', 'e', 'c', 't', 'i', 'o', 'n', 's', '"', ':', ' ', '['],
{
    reveal_strlit("{\n  \"sections\": [");
}

proof fn lemma_lit_section()
    ensures
        "\n    {\n"@ == seq!['\n', ' ', ' ', ' ', ' ', '{', '\n'],
        "      \"name\": \""@ == seq![' ', ' ', ' ', ' ', ' ', ' ', '"', 'n', 'a', 'm', 'e', '"', ':', ' ', '"'],
        "\",\n"@ == seq!['"', ',', '\n'],
        "      \"windows\": ["@ == seq![' ', ' ', ' ', ' ', ' ', ' ', '"', 'w', 'i', 'n', 'd', 'o', 'w', 's', '"', ':', ' ', '['],
        "]\n    }"@ == seq![']', '\n', ' ', ' ', ' ', ' ', '}'],
{
    reveal_strlit("\n    {\n");
    reveal_strlit("      \"name\": \"");
    reveal_strlit("\",\n");
    reveal_strlit("      \"windows\": [");
    reveal_strlit("]\n    }");
}

proof fn lemma_lit_list()
    ensures
        ", "@ == seq![',', ' '],
        "\""@ == seq!['"'],
{
    reveal_strlit(", ");
    reveal_strlit("\"");
}

proof fn lemma_lit_comma()
    ensures
        ","@ == seq![','],
{
    reveal_strlit(",");
}

proof fn lemma_lit_end()
    ensures
        "\n  "@ == seq!['\n', ' ', ' '],
        "]\n}\n"@ == seq![']', '\n', '}', '\n'],
{
    reveal_strlit("\n  ");
    reveal_strlit("]\n}\n");
}

// ---------------------------------------------------------------------------
// Searching
// ---------------------------------------------------------------------------

pub(crate) proof fn lemma_find_seq_at(s: Seq<char>, pat: Seq<char>, p: int)
    requires
        occurs_at(s, pat, p),
        forall|q: int| 0 <= q < p ==> !occurs_at(s, pat, q),
    ensures
        find_seq(s, pat) == Some(p),
{
    lemma_find_from_props(s, pat, 0);
}

proof fn lemma_find_seq_none(s: Seq<char>, pat: Seq<char>)
    requires
        forall|q: int| 0 <= q ==> !occurs_at(s, pat, q),
    ensures
        find_seq(s, pat) is None,
{
    lemma_find_from_props(s, pat, 0);
}

proof fn lemma_find_char_at(s: Seq<char>, c: char, p: int)
    requires
        0 <= p < s.len(),
        s[p] == c,
        forall|q: int| 0 <= q < p ==> s[q] != c,
    ensures
        find_char(s, c) == Some(p),
{
    lemma_find_char_from_props(s, c, 0);
}

// ---------------------------------------------------------------------------
// Escaped text
// ---------------------------------------------------------------------------

/// A string as the writer quotes it.
pub open spec fn quoted(x: Seq<char>) -> Seq<char> {
    seq!['"'] + escape_seq(x) + seq!['"']
}

proof fn lemma_escape_concat(a: Seq<char>, b: Seq<char>)
    ensures
        escape_seq(a + b) == escape_seq(a) + escape_seq(b),
    decreases b.len(),
{
    if b.len() == 0 {
        assert(a + b =~= a);
        assert(escape_seq(a) + escape_seq(b) =~= escape_seq(a));
    } else {
        assert((a + b).drop_last() =~= a + b.drop_last());
        assert((a + b).last() == b.last());
        lemma_escape_concat(a, b.drop_last());
        assert(escape_seq(a) + escape_seq(b.drop_last()) + escape_char(b.last()) =~= escape_seq(a)
            + escape_seq(b));
    }
}

pub(crate) proof fn lemma_escape_front(x: Seq<char>)
    requires
        x.len() > 0,
    ensures
        escape_seq(x) == escape_char(x[0]) + escape_seq(x.drop_first()),
{
    assert(x =~= seq![x[0]] + x.drop_first());
    lemma_escape_concat(seq![x[0]], x.drop_first());
    let one = seq![x[0]];
    assert(one.drop_last() =~= Seq::<char>::empty());
    assert(escape_seq(one.drop_last()) == Seq::<char>::empty());
    assert(one.last() == x[0]);
    assert(escape_seq(one) =~= escape_char(x[0]));
}

/// Every quote of escaped text directly follows a backslash.
pub(crate) proof fn lemma_escape_quotes(x: Seq<char>)
    ensures
        forall|j: int|
            0 <= j < escape_seq(x).len() && #[trigger] escape_seq(x)[j] == '"' ==> j >= 1
                && escape_seq(x)[j - 1] == '\\',
    decreases x.len(),
{
    if x.len() > 0 {
        lemma_escape_quotes(x.drop_last());
        let d = escape_seq(x.drop_last());
        let e = escape_char(x.last());
        assert(escape_seq(x) == d + e);
        assert forall|j: int|
            0 <= j < escape_seq(x).len() && #[trigger] escape_seq(x)[j] == '"' implies j >= 1
                && escape_seq(x)[j - 1] == '\\' by {
            if j < d.len() {
                assert(escape_seq(x)[j] == d[j]);
                assert(escape_seq(x)[j - 1] == d[j - 1]);
            } else {
                assert(escape_seq(x)[j] == e[j - d.len()]);
                assert(j - d.len() == 1);
                assert(escape_seq(x)[j - 1] == e[0]);
            }
        }
    }
}

/// Escaping adds no character but backslashes, quotes, `n` and `t`.
proof fn lemma_escape_keeps_out(x: Seq<char>, c: char)
    requires
        c != '\\' && c != '"' && c != 'n' && c != 't',
        !x.contains(c),
    ensures
        !escape_seq(x).contains(c),
    decreases x.len(),
{
    if x.len() > 0 {
        assert(!x.drop_last().contains(c)) by {
            if x.drop_last().contains(c) {
                let i = choose|i: int| 0 <= i < x.drop_last().len() && x.drop_last()[i] == c;
                assert(x[i] == c);
            }
        }
        lemma_escape_keeps_out(x.drop_last(), c);
        let d = escape_seq(x.drop_last());
        let e = escape_char(x.last());
        assert(x[x.len() - 1] != c);
        if escape_seq(x).contains(c) {
            let i = choose|i: int| 0 <= i < escape_seq(x).len() && escape_seq(x)[i] == c;
            if i < d.len() {
                assert(d[i] == c);
            } else {
                assert(e[i - d.len()] == c);
            }
        }
    }
}

/// Reading escaped text back up to its closing quote gives the text.
proof fn lemma_scan_escaped(t: Seq<char>, i: int, x: Seq<char>, acc: Seq<char>)
    requires
        0 <= i,
        i + escape_seq(x).len() < t.len(),
        t.subrange(i, i + escape_seq(x).len()) == escape_seq(x),
        t[i + escape_seq(x).len()] == '"',
        !x.contains('\r'),
    ensures
        scan_string(t, i, false, acc) == Some((acc + x, i + escape_seq(x).len() + 1)),
    decreases x.len(),
{
    let n = escape_seq(x).len();
    if x.len() == 0 {
        assert(acc + x =~= acc);
    } else {
        lemma_escape_front(x);
        let c = x[0];
        let rest = x.drop_first();
        let e = escape_char(c);
        let m = escape_seq(rest).len();
        assert(!rest.contains('\r')) by {
            if rest.contains('\r') {
                let k = choose|k: int| 0 <= k < rest.len() && rest[k] == '\r';
                assert(x[k + 1] == '\r');
            }
        }
        assert(c != '\r') by {
            assert(x[0] == c);
        }
        assert(t.subrange(i + e.len(), i + n) =~= escape_seq(rest)) by {
            assert forall|k: int| 0 <= k < m implies t.subrange(i + e.len(), i + n)[k] == escape_seq(rest)[k] by {
                assert(t[i + e.len() + k] == t.subrange(i, i + n)[e.len() + k]);
            }
        }
        assert(t[i] == t.subrange(i, i + n)[0]);
        assert(escape_seq(x) == e + escape_seq(rest));
        assert(t[i + e.len() + m] == t[i + n]);
        lemma_scan_escaped(t, i + e.len(), rest, acc.push(c));
        if c == '"' || c == '\\' || c == '\n' || c == '\t' {
            assert(t[i + 1] == t.subrange(i, i + n)[1]);
            assert(e.len() == 2);
            assert(t[i] == '\\');
            assert(unescape_char(t[i + 1]) == c);
            assert(scan_string(t, i, false, acc) == scan_string(t, i + 1, true, acc));
            assert(scan_string(t, i + 1, true, acc) == scan_string(t, i + 2, false, acc.push(c)));
        } else {
            assert(e == seq![c]);
            assert(t[i] == c);
            assert(scan_string(t, i, false, acc) == scan_string(t, i + 1, false, acc.push(c)));
        }
        assert(acc.push(c) + rest =~= acc + x);
    }
}

/// A quoted key met in quoted escaped text followed by anything but the
/// key's first letter ends at the text's closing quote.
pub(crate) proof fn lemma_key_ends_at_closing_quote(x: Seq<char>, z: Seq<char>, letters: Seq<char>, q: int)
    requires
        letters.len() >= 1,
        forall|k: int| 0 <= k < letters.len() ==> letters[k] != '"' && letters[k] != '\\',
        z.len() > 0,
        z[0] != letters[0],
        0 <= q <= escape_seq(x).len() + 1,
        occurs_at(quoted(x) + z, seq!['"'] + letters + seq!['"'], q),
    ensures
        q + letters.len() + 1 == escape_seq(x).len() + 1,
{
    let e = escape_seq(x);
    let u = quoted(x) + z;
    let key = seq!['"'] + letters + seq!['"'];
    let c: int = e.len() as int + 1;
    let last: int = q + letters.len() + 1;
    lemma_escape_quotes(x);
    assert(u.subrange(q, q + key.len()) == key);
    assert forall|k: int| 0 <= k < key.len() implies u[q + k] == key[k] by {
        assert(u[q + k] == u.subrange(q, q + key.len())[k]);
    }
    assert(u[q] == u.subrange(q, q + key.len())[0]);
    assert(key[0] == '"');
    assert(u[q] == '"');
    assert(u[last] == '"') by {
        assert(u[q + (letters.len() + 1)] == key[letters.len() as int + 1]);
    }
    assert(u[c] == '"');
    if last < c {
        // The key's closing quote is a quote of the escaped text, so a
        // backslash stands before it, where the key has a letter.
        assert(u[last] == e[last - 1]);
        assert(last - 1 >= 1);
        assert(e[last - 2] == '\\');
        assert(u[last - 1] == e[last - 2]);
        assert(u[q + letters.len()] == key[letters.len() as int]);
        assert(key[letters.len() as int] == letters[letters.len() - 1]);
    } else if last > c {
        if q == c {
            assert(u[c + 1] == z[0]);
            assert(u[q + 1] == key[1]);
            assert(key[1] == letters[0]);
        } else {
            assert(q < c);
            assert(u[q + (c - q)] == key[c - q]);
            assert(key[c - q] == letters[c - q - 1]);
        }
    }
}

// ---------------------------------------------------------------------------
// Window lists
// ---------------------------------------------------------------------------

/// The window list, built from the front.
proof fn lemma_window_list_front(ws: Seq<Seq<char>>)
    requires
        ws.len() > 0,
    ensures
        window_list_text(ws) == quoted(ws[0]) + (if ws.len() > 1 {
            seq![',', ' '] + window_list_text(ws.drop_first())
        } else {
            seq![]
        }),
    decreases ws.len(),
{
    lemma_lit_list();
    let d = ws.drop_last();
    if ws.len() == 1 {
        assert(d =~= Seq::<Seq<char>>::empty());
        assert(window_list_text(d) == Seq::<char>::empty());
        assert(ws.last() == ws[0]);
        assert(window_list_text(ws) =~= quoted(ws[0]));
    } else {
        lemma_window_list_front(d);
        let t = ws.drop_first();
        assert(t.drop_last() =~= d.drop_first());
        assert(t.last() == ws.last());
        if ws.len() == 2 {
            assert(d.drop_first() =~= Seq::<Seq<char>>::empty());
            assert(window_list_text(t) =~= quoted(ws.last()));
            assert(window_list_text(ws) =~= quoted(ws[0]) + seq![',', ' '] + window_list_text(t));
        } else {
            assert(window_list_text(t) == window_list_text(t.drop_last()) + seq![',', ' '] + quoted(
                t.last(),
            ));
            assert(window_list_text(ws) =~= quoted(ws[0]) + seq![',', ' '] + window_list_text(t));
        }
    }
}

/// One quoted value read off the front of an array body.
proof fn lemma_string_values_step(body: Seq<char>, q: int, v: Seq<char>, n: int)
    requires
        find_char(body, '"') == Some(q),
        0 <= q < body.len(),
        scan_string(body.skip(q + 1), 0, false, seq![]) == Some((v, n)),
        0 < n <= body.len() - q - 1,
    ensures
        string_values(body) == seq![v] + string_values(body.skip(q + 1).skip(n)),
{
}

/// A comma and a space before a quoted value are skipped.
proof fn lemma_string_values_after_comma(lt: Seq<char>)
    requires
        lt.len() > 0,
        lt[0] == '"',
    ensures
        string_values(seq![',', ' '] + lt) == string_values(lt),
{
    let rest = seq![',', ' '] + lt;
    lemma_find_char_at(rest, '"', 2);
    lemma_find_char_at(lt, '"', 0);
    assert(rest.skip(3) =~= lt.skip(1));
}

proof fn lemma_string_values_list(ws: Seq<Seq<char>>)
    requires
        forall|j: int| 0 <= j < ws.len() ==> !(#[trigger] ws[j]).contains('\r'),
    ensures
        string_values(window_list_text(ws)) == ws,
    decreases ws.len(),
{
    if ws.len() == 0 {
        lemma_find_char_from_props(window_list_text(ws), '"', 0);
    } else {
        lemma_window_list_front(ws);
        let l = window_list_text(ws);
        let e = escape_seq(ws[0]);
        let rest = if ws.len() > 1 {
            seq![',', ' '] + window_list_text(ws.drop_first())
        } else {
            seq![]
        };
        assert(l =~= seq!['"'] + e + seq!['"'] + rest);
        lemma_find_char_at(l, '"', 0);
        let aq = l.skip(1);
        assert(aq =~= e + seq!['"'] + rest);
        assert(aq.subrange(0, e.len() as int) =~= e);
        assert(aq[e.len() as int] == '"');
        lemma_scan_escaped(aq, 0, ws[0], seq![]);
        assert(seq![] + ws[0] =~= ws[0]);
        assert(aq.skip(e.len() as int + 1) =~= rest);
        lemma_string_values_step(l, 0, ws[0], e.len() as int + 1);
        assert(string_values(l) == seq![ws[0]] + string_values(rest));
        if ws.len() > 1 {
            let t = ws.drop_first();
            assert forall|j: int| 0 <= j < t.len() implies !(#[trigger] t[j]).contains('\r') by {
                assert(t[j] == ws[j + 1]);
            }
            lemma_string_values_list(t);
            lemma_window_list_front(t);
            let lt = window_list_text(t);
            assert(rest =~= seq![',', ' '] + lt);
            lemma_string_values_after_comma(lt);
            assert(seq![ws[0]] + t =~= ws);
        } else {
            lemma_find_char_from_props(rest, '"', 0);
            assert(string_values(rest) =~= Seq::<Seq<char>>::empty());
            assert(seq![ws[0]] + Seq::<Seq<char>>::empty() =~= ws);
        }
    }
}

/// A character that escaping and the separators never add stays out of the
/// window list when no id holds it.
proof fn lemma_list_keeps_out(ws: Seq<Seq<char>>, c: char)
    requires
        c != '\\' && c != '"' && c != 'n' && c != 't' && c != ',' && c != ' ',
        forall|j: int| 0 <= j < ws.len() ==> !(#[trigger] ws[j]).contains(c),
    ensures
        !window_list_text(ws).contains(c),
    decreases ws.len(),
{
    lemma_lit_list();
    if ws.len() > 0 {
        lemma_list_keeps_out(ws.drop_last(), c);
        lemma_escape_keeps_out(ws.last(), c);
        let a = window_list_text(ws.drop_last());
        let sep = if ws.len() > 1 {
            seq![',', ' ']
        } else {
            seq![]
        };
        let b = seq!['"'] + escape_seq(ws.last()) + seq!['"'];
        assert(window_list_text(ws) == a + sep + b);
        if window_list_text(ws).contains(c) {
            let i = choose|i: int| 0 <= i < window_list_text(ws).len() && window_list_text(ws)[i] == c;
            if i < a.len() {
                assert(a[i] == c);
            } else if i < a.len() + sep.len() {
                assert(sep[i - a.len()] == c);
            } else {
                let k = i - a.len() - sep.len();
                assert(b[k] == c);
                if 1 <= k <= escape_seq(ws.last()).len() {
                    assert(escape_seq(ws.last())[k - 1] == c);
                }
            }
        }
    }
}

/// No quoted key of these letters starts inside the window list when no id,
/// quoted and escaped, holds it.
proof fn lemma_list_has_no_key(ws: Seq<Seq<char>>, z: Seq<char>, letters: Seq<char>)
    requires
        letters.len() >= 1,
        forall|k: int| 0 <= k < letters.len() ==> letters[k] != '"' && letters[k] != '\\',
        letters[0] != ',' && letters[0] != ']',
        forall|j: int|
            0 <= j < ws.len() ==> !contains_seq(quoted(#[trigger] ws[j]), seq!['"'] + letters + seq!['"']),
        z.len() > 0,
        z[0] == ']',
    ensures
        forall|q: int|
            0 <= q < window_list_text(ws).len() ==> !occurs_at(
                window_list_text(ws) + z,
                seq!['"'] + letters + seq!['"'],
                q,
            ),
    decreases ws.len(),
{
    let key = seq!['"'] + letters + seq!['"'];
    let n = key.len() as int;
    if ws.len() > 0 {
        lemma_window_list_front(ws);
        let q0 = quoted(ws[0]);
        let rest = if ws.len() > 1 {
            seq![',', ' '] + window_list_text(ws.drop_first())
        } else {
            seq![]
        };
        let l = window_list_text(ws);
        if ws.len() > 1 {
            let t = ws.drop_first();
            assert forall|j: int| 0 <= j < t.len() implies !contains_seq(quoted(#[trigger] t[j]), key) by {
                assert(t[j] == ws[j + 1]);
            }
            lemma_list_has_no_key(t, z, letters);
        }
        assert forall|q: int| 0 <= q < l.len() implies !occurs_at(l + z, key, q) by {
            if occurs_at(l + z, key, q) {
                if q < q0.len() {
                    let zz = rest + z;
                    assert(l + z =~= q0 + zz);
                    if ws.len() > 1 {
                        assert(zz[0] == ',');
                    } else {
                        assert(zz[0] == ']');
                    }
                    lemma_key_ends_at_closing_quote(ws[0], zz, letters, q);
                    assert(occurs_at(q0, key, q)) by {
                        assert((l + z).subrange(q, q + n) =~= q0.subrange(q, q + n));
                    }
                } else if q < q0.len() + 2 {
                    assert((l + z)[q] == (l + z).subrange(q, q + n)[0]);
                    assert((l + z)[q] == rest[q - q0.len()]);
                } else {
                    let t = ws.drop_first();
                    let lt = window_list_text(t);
                    assert(l + z =~= q0 + seq![',', ' '] + (lt + z));
                    assert((l + z).subrange(q, q + n) =~= (lt + z).subrange(
                        q - q0.len() - 2,
                        q - q0.len() - 2 + n,
                    ));
                    assert(occurs_at(lt + z, key, q - q0.len() - 2));
                }
            }
        }
    }
}

/// The part of a section after its `"windows"` key.
pub open spec fn section_tail(s: SectionView) -> Seq<char> {
    seq![':', ' ', '['] + window_list_text(s.windows) + "]\n    }"@
}

/// The window array after a section's `"windows"` key reads back its ids.
proof fn lemma_array_of_tail(s: SectionView, r: Seq<char>)
    requires
        section_readable(s),
    ensures
        array_after_colon(section_tail(s) + r) == s.windows,
{
    lemma_lit_section();
    let l = window_list_text(s.windows);
    let t = section_tail(s) + r;
    assert(t =~= seq![':', ' ', '['] + l + seq![']', '\n', ' ', ' ', ' ', ' ', '}'] + r);
    lemma_find_char_at(t, ':', 0);
    let a = t.skip(1);
    lemma_find_char_at(a, '[', 1);
    let b = a.skip(2);
    assert(b =~= l + seq![']', '\n', ' ', ' ', ' ', ' ', '}'] + r);
    lemma_list_keeps_out(s.windows, ']');
    assert forall|q: int| 0 <= q < l.len() implies b[q] != ']' by {
        assert(b[q] == l[q]);
        if l[q] == ']' {
            assert(l.contains(']'));
        }
    }
    lemma_find_char_at(b, ']', l.len() as int);
    assert(b.take(l.len() as int) =~= l);
    lemma_string_values_list(s.windows);
}

// ---------------------------------------------------------------------------
// Sections
// ---------------------------------------------------------------------------

/// What the reader needs of a section to read its name and window ids: no
/// carriage return in them, no `]` in an id.
pub open spec fn section_readable(s: SectionView) -> bool {
    &&& !s.name.contains('\r')
    &&& forall|j: int|
        0 <= j < s.windows.len() ==> !(#[trigger] s.windows[j]).contains('\r') && !s.windows[j].contains(
            ']',
        )
}

/// What the reader needs of the last section: as any other, or readable
/// with no `:` in any id, or readable with no id holding, quoted and
/// escaped, `"windows"`; then a `"name"` met among its ids starts nothing.
pub open spec fn last_section_survives(s: SectionView) -> bool {
    ||| section_ok(s)
    ||| section_readable(s) && forall|j: int| 0 <= j < s.windows.len() ==> !(#[trigger] s.windows[j]).contains(':')
    ||| section_readable(s) && forall|j: int|
        0 <= j < s.windows.len() ==> !contains_seq(quoted(#[trigger] s.windows[j]), windows_key())
}

/// Text with no `:` after its first character reads as no sections: a name
/// key found in it has no value.
proof fn lemma_parse_without_colons(t: Seq<char>)
    requires
        forall|q: int| 1 <= q < t.len() ==> t[q] != ':',
    ensures
        parse_sections(t) == Seq::<SectionView>::empty(),
{
    lemma_find_from_props(t, name_key(), 0);
    if let Some(p) = find_seq(t, name_key()) {
        if 0 <= p && p + 6 <= t.len() {
            let r1 = t.skip(p + 6);
            lemma_find_char_from_props(r1, ':', 0);
            assert forall|q: int| 0 <= q < r1.len() implies r1[q] != ':' by {
                assert(r1[q] == t[p + 6 + q]);
            }
        }
    }
}

/// A prefix in which no name key starts does not change what is read.
proof fn lemma_parse_after_prefix(x: Seq<char>, y: Seq<char>)
    requires
        forall|q: int| 0 <= q < x.len() ==> !occurs_at(x + y, name_key(), q),
    ensures
        parse_sections(x + y) == parse_sections(y),
{
    let t = x + y;
    let k = name_key();
    lemma_find_from_props(t, k, 0);
    lemma_find_from_props(y, k, 0);
    assert forall|q: int| 0 <= q implies occurs_at(t, k, x.len() + q) == occurs_at(y, k, q) by {
        if q + 6 <= y.len() {
            assert(t.subrange(x.len() + q, x.len() + q + 6) =~= y.subrange(q, q + 6));
        }
    }
    match find_seq(y, k) {
        Some(j) => {
            assert(occurs_at(t, k, x.len() + j));
            assert forall|q: int| 0 <= q < x.len() + j implies !occurs_at(t, k, q) by {
                if q >= x.len() {
                    assert(!occurs_at(y, k, q - x.len()));
                }
            }
            lemma_find_seq_at(t, k, x.len() + j);
            assert(t.skip(x.len() + j + 6) =~= y.skip(j + 6));
        },
        None => {
            assert forall|q: int| 0 <= q implies !occurs_at(t, k, q) by {
                if q >= x.len() {
                    assert(!occurs_at(y, k, q - x.len()));
                }
            }
            lemma_find_seq_none(t, k);
        },
    }
}

/// Where no occurrence of `pat` starts in `x`, searching `x + y` finds what
/// searching `y` finds, moved by `x`'s length.
proof fn lemma_find_after_prefix(x: Seq<char>, y: Seq<char>, pat: Seq<char>)
    requires
        forall|q: int| 0 <= q < x.len() ==> !occurs_at(x + y, pat, q),
    ensures
        find_seq(x + y, pat) == match find_seq(y, pat) {
            Some(j) => Some(j + x.len()),
            None => None::<int>,
        },
{
    let t = x + y;
    let n = pat.len() as int;
    lemma_find_from_props(t, pat, 0);
    lemma_find_from_props(y, pat, 0);
    assert forall|q: int| 0 <= q implies occurs_at(t, pat, x.len() + q) == occurs_at(y, pat, q) by {
        if q + n <= y.len() {
            assert(t.subrange(x.len() + q, x.len() + q + n) =~= y.subrange(q, q + n));
        }
    }
    match find_seq(y, pat) {
        Some(j) => {
            assert(occurs_at(t, pat, x.len() + j));
            assert forall|q: int| 0 <= q < x.len() + j implies !occurs_at(t, pat, q) by {
                if q >= x.len() {
                    assert(!occurs_at(y, pat, q - x.len()));
                }
            }
            lemma_find_seq_at(t, pat, x.len() + j);
        },
        None => {
            assert forall|q: int| 0 <= q implies !occurs_at(t, pat, q) by {
                if q >= x.len() {
                    assert(!occurs_at(y, pat, q - x.len()));
                }
            }
            lemma_find_seq_none(t, pat);
        },
    }
}

/// Where `x` holds no colon, the string after the first colon of `x + y`
/// is the one after the first colon of `y`.
proof fn lemma_string_after_prefix(x: Seq<char>, y: Seq<char>)
    requires
        forall|q: int| 0 <= q < x.len() ==> x[q] != ':',
    ensures
        string_after_colon(x + y) == string_after_colon(y),
{
    let t = x + y;
    lemma_find_char_from_props(t, ':', 0);
    lemma_find_char_from_props(y, ':', 0);
    match find_char(y, ':') {
        Some(c) => {
            assert(t[x.len() + c] == ':');
            assert forall|q: int| 0 <= q < x.len() + c implies t[q] != ':' by {
                if q >= x.len() {
                    assert(t[q] == y[q - x.len()]);
                }
            }
            lemma_find_char_at(t, ':', x.len() + c);
            assert(t.skip(x.len() + c + 1) =~= y.skip(c + 1));
        },
        None => {
            assert forall|q: int| 0 <= q < t.len() implies t[q] != ':' by {
                if q >= x.len() {
                    assert(t[q] == y[q - x.len()]);
                }
            }
        },
    }
}

/// Ids after a window id that reads as a name key hold no colon and, quoted
/// and escaped, no `"windows"`.
pub open spec fn quiet_after_name_ids(ws: Seq<Seq<char>>) -> bool {
    forall|j: int, j2: int|
        0 <= j < j2 < ws.len() && contains_seq(quoted(#[trigger] ws[j]), name_key()) ==> !(
        #[trigger] ws[j2]).contains(':') && !contains_seq(quoted(ws[j2]), windows_key())
}

/// The list of quiet ids, after its leading separator, and what follows hold
/// no colon and no windows key.
proof fn lemma_quiet_rest(t: Seq<Seq<char>>, z: Seq<char>, rz: Seq<char>)
    requires
        rz == (if t.len() > 0 {
            seq![',', ' '] + window_list_text(t)
        } else {
            seq![]
        }) + z,
        forall|j: int| 0 <= j < t.len() ==> !(#[trigger] t[j]).contains(':') && !contains_seq(
            quoted(t[j]),
            windows_key(),
        ),
        z.len() > 0,
        z[0] == ']',
        forall|i: int| 0 <= i < z.len() ==> z[i] != '"' && z[i] != ':',
    ensures
        forall|i: int| 0 <= i < rz.len() ==> rz[i] != ':',
        forall|i: int| 0 <= i ==> !occurs_at(rz, windows_key(), i),
{
    let w = windows_key();
    let wl = seq!['w', 'i', 'n', 'd', 'o', 'w', 's'];
    assert(w == seq!['"'] + wl + seq!['"']);
    let lt = window_list_text(t);
    lemma_list_keeps_out(t, ':');
    assert forall|j: int| 0 <= j < t.len() implies !contains_seq(quoted(#[trigger] t[j]), seq!['"'] + wl + seq!['"']) by {
        assert(!contains_seq(quoted(t[j]), windows_key()));
    }
    lemma_list_has_no_key(t, z, wl);
    if t.len() > 0 {
        assert(rz =~= seq![',', ' '] + (lt + z));
        assert forall|i: int| 0 <= i < rz.len() implies rz[i] != ':' by {
            if 2 <= i < 2 + lt.len() {
                assert(rz[i] == lt[i - 2]);
                if lt[i - 2] == ':' {
                    assert(lt.contains(':'));
                }
            } else if i >= 2 + lt.len() {
                assert(rz[i] == z[i - 2 - lt.len()]);
            }
        }
        assert forall|i: int| 0 <= i implies !occurs_at(rz, w, i) by {
            if occurs_at(rz, w, i) {
                assert(rz[i] == rz.subrange(i, i + 9)[0]);
                if i < 2 {
                } else if i < 2 + lt.len() {
                    assert(rz.subrange(i, i + 9) =~= (lt + z).subrange(i - 2, i - 2 + 9));
                    assert(occurs_at(lt + z, w, i - 2));
                } else {
                    assert(rz[i] == z[i - 2 - lt.len()]);
                }
            }
        }
    } else {
        assert(rz =~= z);
        assert forall|i: int| 0 <= i implies !occurs_at(rz, w, i) by {
            if occurs_at(rz, w, i) {
                assert(rz[i] == rz.subrange(i, i + 9)[0]);
            }
        }
    }
}

/// A name key met in the first id ends with it, and every later id is quiet.
proof fn lemma_after_name_in_first(ws: Seq<Seq<char>>, z: Seq<char>, q: int)
    requires
        quiet_after_name_ids(ws),
        z.len() > 0,
        z[0] == ']',
        forall|i: int| 0 <= i < z.len() ==> z[i] != '"' && z[i] != ':',
        0 <= q < window_list_text(ws).len(),
        occurs_at(window_list_text(ws) + z, name_key(), q),
        ws.len() > 0,
        q < quoted(ws[0]).len(),
    ensures
        forall|i: int|
            q + 6 <= i < window_list_text(ws).len() + z.len() ==> (window_list_text(ws) + z)[i] != ':',
        forall|i: int| q + 6 <= i ==> !occurs_at(window_list_text(ws) + z, windows_key(), i),
{
    let l = window_list_text(ws);
    let u = l + z;
    let k = name_key();
    let w = windows_key();
    lemma_window_list_front(ws);
    let q0 = quoted(ws[0]);
    let letters = seq!['n', 'a', 'm', 'e'];
    assert(k == seq!['"'] + letters + seq!['"']);
    let t = ws.drop_first();
    let rz = (if t.len() > 0 {
        seq![',', ' '] + window_list_text(t)
    } else {
        seq![]
    }) + z;
    assert(u =~= q0 + rz);
    if t.len() > 0 {
        assert(rz[0] == ',');
    } else {
        assert(rz[0] == ']');
    }
    lemma_key_ends_at_closing_quote(ws[0], rz, letters, q);
    assert(occurs_at(q0, k, q)) by {
        assert(u.subrange(q, q + 6) =~= q0.subrange(q, q + 6));
    }
    assert forall|j2: int| 0 <= j2 < t.len() implies !(#[trigger] t[j2]).contains(':')
        && !contains_seq(quoted(t[j2]), windows_key()) by {
        assert(t[j2] == ws[j2 + 1]);
        assert(contains_seq(quoted(ws[0]), name_key()));
    }
    lemma_quiet_rest(t, z, rz);
    assert(q + 6 == q0.len());
    assert forall|i: int| q + 6 <= i < l.len() + z.len() implies u[i] != ':' by {
        assert(u[i] == rz[i - q0.len()]);
    }
    assert forall|i: int| q + 6 <= i implies !occurs_at(u, w, i) by {
        if occurs_at(u, w, i) {
            assert(u.subrange(i, i + 9) =~= rz.subrange(i - q0.len(), i - q0.len() + 9));
            assert(occurs_at(rz, w, i - q0.len()));
        }
    }
}

/// After a name key met in the window list, the rest of the list and what
/// follows hold no colon and no windows key.
#[verifier::spinoff_prover]
proof fn lemma_after_name_in_list(ws: Seq<Seq<char>>, z: Seq<char>, q: int)
    requires
        quiet_after_name_ids(ws),
        z.len() > 0,
        z[0] == ']',
        forall|i: int| 0 <= i < z.len() ==> z[i] != '"' && z[i] != ':',
        0 <= q < window_list_text(ws).len(),
        occurs_at(window_list_text(ws) + z, name_key(), q),
    ensures
        forall|i: int|
            q + 6 <= i < window_list_text(ws).len() + z.len() ==> (window_list_text(ws) + z)[i] != ':',
        forall|i: int| q + 6 <= i ==> !occurs_at(window_list_text(ws) + z, windows_key(), i),
    decreases ws.len(),
{
    let l = window_list_text(ws);
    let u = l + z;
    let k = name_key();
    let w = windows_key();
    lemma_window_list_front(ws);
    let q0 = quoted(ws[0]);
    let letters = seq!['n', 'a', 'm', 'e'];
    let wl = seq!['w', 'i', 'n', 'd', 'o', 'w', 's'];
    assert(k == seq!['"'] + letters + seq!['"']);
    assert(w == seq!['"'] + wl + seq!['"']);
    let t = ws.drop_first();
    if q < q0.len() {
        lemma_after_name_in_first(ws, z, q);
    } else if q < q0.len() + 2 {
        assert(u[q] == u.subrange(q, q + 6)[0]);
        assert(u[q] == l[q]);
    } else {
        let lt = window_list_text(t);
        let d = q0.len() + 2;
        assert(u =~= q0 + seq![',', ' '] + (lt + z));
        assert(u.subrange(q, q + 6) =~= (lt + z).subrange(q - d, q - d + 6));
        assert forall|j: int, j2: int|
            0 <= j < j2 < t.len() && contains_seq(quoted(#[trigger] t[j]), name_key()) implies !(
            #[trigger] t[j2]).contains(':') && !contains_seq(quoted(t[j2]), windows_key()) by {
            assert(t[j] == ws[j + 1] && t[j2] == ws[j2 + 1]);
        }
        lemma_after_name_in_list(t, z, q - d);
        assert forall|i: int| q + 6 <= i < l.len() + z.len() implies u[i] != ':' by {
            assert(u[i] == (lt + z)[i - d]);
        }
        assert forall|i: int| q + 6 <= i implies !occurs_at(u, w, i) by {
            if occurs_at(u, w, i) {
                assert(u.subrange(i, i + 9) =~= (lt + z).subrange(i - d, i - d + 9));
                assert(occurs_at(lt + z, w, i - d));
            }
        }
    }
}

/// Reading from a name key followed by text without colons or windows keys
/// reads what reading from the next section gives.
#[verifier::spinoff_prover]
proof fn lemma_skip_to_next_section(p: Seq<char>, j: Seq<char>, x: Seq<char>)
    requires
        forall|q: int| 0 <= q < p.len() ==> !occurs_at(p + name_key() + j + x, name_key(), q),
        forall|i: int| 0 <= i < j.len() ==> j[i] != ':',
        forall|i: int| 0 <= i < j.len() ==> !occurs_at(j + x, windows_key(), i),
        x.len() >= 22,
        x.subrange(0, 22) == section_head(),
    ensures
        parse_sections(p + name_key() + j + x) == parse_sections(x),
{
    let k = name_key();
    let w = windows_key();
    let t = p + k + j + x;
    assert(t.subrange(p.len() as int, p.len() + 6int) =~= k);
    lemma_find_seq_at(t, k, p.len() as int);
    let r1 = t.skip(p.len() + 6int);
    assert(r1 =~= j + x);
    // The next section's own key.
    assert forall|q: int| 0 <= q < 13 implies !occurs_at(x, k, q) by {
        if occurs_at(x, k, q) {
            assert(x[q] == x.subrange(q, q + 6)[0]);
            assert(x[q] == section_head()[q]);
        }
    }
    assert(x.subrange(13, 19) =~= k);
    lemma_find_seq_at(x, k, 13);
    let r1b = x.skip(19);
    // The same name.
    lemma_string_after_prefix(j, x);
    assert forall|q: int| 0 <= q < 19 implies x.take(19)[q] != ':' by {
        assert(x.take(19)[q] == section_head()[q]);
    }
    assert(x =~= x.take(19) + r1b);
    lemma_string_after_prefix(x.take(19), r1b);
    // The same windows key.
    lemma_find_after_prefix(j, x, w);
    assert forall|q: int| 0 <= q < 19 implies !occurs_at(x.take(19) + r1b, w, q) by {
        if occurs_at(x.take(19) + r1b, w, q) {
            assert(x[q] == x.subrange(q, q + 9)[0]);
            assert(x[q + 1] == x.subrange(q, q + 9)[1]);
            assert(x[q] == section_head()[q]);
            assert(x[q + 1] == section_head()[q + 1]);
        }
    }
    lemma_find_after_prefix(x.take(19), r1b, w);
    if let Some(f) = find_seq(x, w) {
        lemma_find_from_props(x, w, 0);
        assert(r1.skip(j.len() + f + 9) =~= x.skip(f + 9));
        assert(r1b.skip(f - 19 + 9) =~= x.skip(f + 9));
    }
}

/// A prefix without colons does not change the array read after the colon.
proof fn lemma_array_after_prefix(x: Seq<char>, y: Seq<char>)
    requires
        forall|q: int| 0 <= q < x.len() ==> x[q] != ':',
        y.len() > 0,
        y[0] == ':',
    ensures
        array_after_colon(x + y) == array_after_colon(y),
{
    let t = x + y;
    lemma_find_char_at(t, ':', x.len() as int);
    lemma_find_char_at(y, ':', 0);
    assert(t.skip(x.len() as int + 1) =~= y.skip(1));
}

/// The text of a section up to its name's opening quote.
spec fn section_head() -> Seq<char> {
    seq!['\n', ' ', ' ', ' ', ' ', '{', '\n', ' ', ' ', ' ', ' ', ' ', ' ', '"', 'n', 'a', 'm', 'e', '"', ':', ' ', '"']
}

/// The text of a section from its name's closing quote to its `"windows"`
/// key.
spec fn section_middle() -> Seq<char> {
    seq!['"', ',', '\n', ' ', ' ', ' ', ' ', ' ', ' ', '"', 'w', 'i', 'n', 'd', 'o', 'w', 's', '"']
}

proof fn lemma_section_parts(s: SectionView)
    ensures
        section_text(s) == section_head() + escape_seq(s.name) + section_middle() + section_tail(s),
{
    lemma_lit_section();
    assert(section_text(s) =~= section_head() + escape_seq(s.name) + section_middle() + section_tail(s));
}

/// The first name key after a prefix without one is the section's own.
proof fn lemma_first_name_key(p: Seq<char>, x: Seq<char>, r: Seq<char>)
    requires
        !contains_seq(p, name_key()),
    ensures
        find_seq(p + section_head() + x + r, name_key()) == Some(p.len() + 13int),
{
    let a = section_head();
    let t = p + a + x + r;
    let k = name_key();
    let at: int = p.len() as int + 13;
    assert(t.subrange(at, at + 6) =~= k);
    assert forall|q: int| 0 <= q < at implies !occurs_at(t, k, q) by {
        if occurs_at(t, k, q) {
            assert(t[q] == t.subrange(q, q + 6)[0]);
            assert(t[q + 5] == t.subrange(q, q + 6)[5]);
            if q + 5 < p.len() {
                assert(t.subrange(q, q + 6) =~= p.subrange(q, q + 6));
                assert(occurs_at(p, k, q));
            } else if q + 5 < at {
                assert(t[q + 5] == a[q + 5 - p.len()]);
            }
        }
    }
    lemma_find_seq_at(t, k, at);
}

/// The string after the name key's colon is the section's name.
proof fn lemma_name_read(name: Seq<char>, rest: Seq<char>)
    requires
        !name.contains('\r'),
    ensures
        string_after_colon(seq![':', ' ', '"'] + escape_seq(name) + section_middle() + rest) == Some(name),
{
    let e = escape_seq(name);
    let r1 = seq![':', ' ', '"'] + e + section_middle() + rest;
    lemma_find_char_at(r1, ':', 0);
    let after = r1.skip(1);
    assert(after =~= seq![' ', '"'] + e + section_middle() + rest);
    lemma_find_char_at(after, '"', 1);
    let body = after.skip(2);
    assert(body =~= e + section_middle() + rest);
    assert(body.subrange(0, e.len() as int) =~= e);
    assert(body[e.len() as int] == '"');
    lemma_scan_escaped(body, 0, name, seq![]);
    assert(seq![] + name =~= name);
}

/// The first windows key after the name is read where it ends in the text
/// the writer made: what follows is the section's tail, or a prefix of it
/// without colons or name keys.
#[verifier::spinoff_prover]
proof fn lemma_windows_key_read(name: Seq<char>, rest: Seq<char>)
    requires
        rest.len() > 0,
        rest[0] == ':',
    ensures
        ({
            let r1 = seq![':', ' ', '"'] + escape_seq(name) + section_middle() + rest;
            &&& find_seq(r1, windows_key()) is Some
            &&& 0 <= find_seq(r1, windows_key())->0
            &&& find_seq(r1, windows_key())->0 + 9 <= r1.len()
            &&& parse_sections(r1.skip(find_seq(r1, windows_key())->0 + 9)) == parse_sections(rest)
            &&& array_after_colon(r1.skip(find_seq(r1, windows_key())->0 + 9)) == array_after_colon(rest)
        }),
{
    let e = escape_seq(name);
    let b = section_middle();
    let r1 = seq![':', ' ', '"'] + e + b + rest;
    let w = windows_key();
    let k = name_key();
    let wk: int = e.len() as int + 12;
    assert(r1.subrange(wk, wk + 9) =~= w);
    assert(occurs_at(r1, w, wk));
    lemma_find_from_props(r1, w, 0);
    let pos = find_seq(r1, w)->0;
    assert(0 <= pos <= wk);
    let z = b.skip(1) + rest;
    let letters = seq!['w', 'i', 'n', 'd', 'o', 'w', 's'];
    assert(w == seq!['"'] + letters + seq!['"']);
    let x = seq![',', '\n', ' ', ' ', ' ', ' ', ' ', ' ', '"', 'w', 'i', 'n', 'd', 'o', 'w', 's', '"'];
    if pos < wk {
        assert(occurs_at(r1, w, pos));
        assert(r1[pos] == r1.subrange(pos, pos + 9)[0]);
        if pos < 2 {
            assert(r1[pos] != '"');
        } else if pos <= e.len() + 3 {
            let u = quoted(name) + z;
            assert(r1 =~= seq![':', ' '] + u);
            assert(r1.subrange(pos, pos + 9) =~= u.subrange(pos - 2, pos - 2 + 9));
            lemma_key_ends_at_closing_quote(name, z, letters, pos - 2);
        } else {
            assert(r1[pos] == b[pos - 3 - e.len()]);
        }
        assert(pos + 9 == e.len() + 4);
        assert(r1.skip(pos + 9) =~= x + rest);
        assert forall|q: int| 0 <= q < x.len() implies x[q] != ':' by {}
        lemma_array_after_prefix(x, rest);
        assert forall|q: int| 0 <= q < x.len() implies !occurs_at(x + rest, k, q) by {
            if occurs_at(x + rest, k, q) {
                assert((x + rest)[q] == (x + rest).subrange(q, q + 6)[0]);
                assert((x + rest)[q + 1] == (x + rest).subrange(q, q + 6)[1]);
                if q == x.len() - 1 {
                    assert((x + rest)[q + 1] == rest[0]);
                }
            }
        }
        lemma_parse_after_prefix(x, rest);
    } else {
        assert(r1.skip(pos + 9) =~= rest);
    }
}

/// One section read back: its name, its windows, and the rest read from
/// the part after its `"windows"` key.
proof fn lemma_section_step(p: Seq<char>, s: SectionView, r: Seq<char>)
    requires
        !contains_seq(p, name_key()),
        section_readable(s),
    ensures
        parse_sections(p + section_text(s) + r) == seq![s] + parse_sections(section_tail(s) + r),
{
    let e = escape_seq(s.name);
    let tail = section_tail(s);
    let rest = tail + r;
    lemma_section_parts(s);
    let x = e + section_middle() + tail;
    let t = p + section_text(s) + r;
    assert(t =~= p + section_head() + x + r);
    lemma_first_name_key(p, x, r);
    let at: int = p.len() as int + 13;
    let r1 = t.skip(at + 6);
    assert(r1 =~= seq![':', ' ', '"'] + e + section_middle() + rest);
    lemma_name_read(s.name, rest);
    assert(rest[0] == ':');
    lemma_windows_key_read(s.name, rest);
    lemma_array_of_tail(s, r);
    let pos = find_seq(r1, windows_key())->0;
    let r2 = r1.skip(pos + 9);
    assert(parse_sections(t) == seq![SectionView { name: s.name, windows: array_after_colon(r2) }]
        + parse_sections(r2));
}

/// The sections' text, built from the front.
proof fn lemma_sections_front(l: Seq<SectionView>)
    requires
        l.len() > 0,
    ensures
        sections_text(l) == section_text(l[0]) + (if l.len() > 1 {
            seq![','] + sections_text(l.drop_first())
        } else {
            seq![]
        }),
    decreases l.len(),
{
    lemma_lit_comma();
    let d = l.drop_last();
    if l.len() == 1 {
        assert(d =~= Seq::<SectionView>::empty());
        assert(sections_text(d) == Seq::<char>::empty());
        assert(l.last() == l[0]);
        assert(sections_text(l) =~= section_text(l[0]));
    } else {
        lemma_sections_front(d);
        let t = l.drop_first();
        assert(t.drop_last() =~= d.drop_first());
        assert(t.last() == l.last());
        if l.len() == 2 {
            assert(d.drop_first() =~= Seq::<SectionView>::empty());
            assert(t.drop_last() =~= Seq::<SectionView>::empty());
            assert(sections_text(t.drop_last()) == Seq::<char>::empty());
            assert(sections_text(t) =~= section_text(l.last()));
            assert(sections_text(l) =~= section_text(l[0]) + seq![','] + sections_text(t));
        } else {
            assert(sections_text(t) == sections_text(t.drop_last()) + seq![','] + section_text(
                t.last(),
            ));
            assert(sections_text(l) =~= section_text(l[0]) + seq![','] + sections_text(t));
        }
    }
}

/// What the reader needs of a section to read it back and go on to the next
/// one: readable, and after an id that reads as a `"name"` key, no id with a
/// colon or, quoted and escaped, `"windows"`.
pub open spec fn section_ok(s: SectionView) -> bool {
    section_readable(s) && quiet_after_name_ids(s.windows)
}

/// After a name key met in a section's tail, the rest holds no colon and no
/// windows key.
proof fn lemma_tail_quiet_after_name(s: SectionView, y: Seq<char>, q: int)
    requires
        section_ok(s),
        forall|i: int| 0 <= i < y.len() ==> y[i] != '"' && y[i] != ':',
        occurs_at(section_tail(s) + y, name_key(), q),
    ensures
        forall|i: int| q + 6 <= i < (section_tail(s) + y).len() ==> (section_tail(s) + y)[i] != ':',
        forall|i: int| q + 6 <= i ==> !occurs_at(section_tail(s) + y, windows_key(), i),
{
    lemma_lit_section();
    let l = window_list_text(s.windows);
    let close = seq![']', '\n', ' ', ' ', ' ', ' ', '}'];
    let z = close + y;
    let t = section_tail(s) + y;
    assert(t =~= seq![':', ' ', '['] + (l + z));
    assert(t[q] == t.subrange(q, q + 6)[0]);
    assert(q >= 3);
    if q >= 3 + l.len() {
        assert(t[q] == z[q - 3 - l.len()]);
    }
    assert(t.subrange(q, q + 6) =~= (l + z).subrange(q - 3, q - 3 + 6));
    lemma_after_name_in_list(s.windows, z, q - 3);
    assert forall|i: int| q + 6 <= i < t.len() implies t[i] != ':' by {
        assert(t[i] == (l + z)[i - 3]);
    }
    assert forall|i: int| q + 6 <= i implies !occurs_at(t, windows_key(), i) by {
        if occurs_at(t, windows_key(), i) {
            assert(t.subrange(i, i + 9) =~= (l + z).subrange(i - 3, i - 3 + 9));
            assert(occurs_at(l + z, windows_key(), i - 3));
        }
    }
}

/// A section whose tail holds a name key hands the reader on to the next
/// section as if it held none.
proof fn lemma_read_past_name_id(s: SectionView, x: Seq<char>)
    requires
        section_ok(s),
        contains_seq(section_tail(s), name_key()),
        x.len() >= 22,
        x.subrange(0, 22) == section_head(),
    ensures
        parse_sections(section_tail(s) + seq![','] + x) == parse_sections(x),
{
    let k = name_key();
    let w = windows_key();
    let tail = section_tail(s);
    let y = seq![','];
    let ty = tail + y;
    lemma_find_from_props(tail, k, 0);
    let q = find_seq(tail, k)->0;
    assert(occurs_at(ty, k, q)) by {
        assert(ty.subrange(q, q + 6) =~= tail.subrange(q, q + 6));
    }
    lemma_tail_quiet_after_name(s, y, q);
    let pp = ty.take(q);
    let j = ty.skip(q + 6);
    let full = ty + x;
    assert(ty =~= pp + k + j) by {
        assert(ty.subrange(q, q + 6) =~= k);
    }
    assert(full =~= pp + k + j + x);
    assert forall|i: int| 0 <= i < pp.len() implies !occurs_at(pp + k + j + x, k, i) by {
        if occurs_at(pp + k + j + x, k, i) {
            assert((pp + k + j + x).subrange(i, i + 6) =~= tail.subrange(i, i + 6));
            assert(occurs_at(tail, k, i));
        }
    }
    assert forall|i: int| 0 <= i < j.len() implies j[i] != ':' by {
        assert(j[i] == ty[q + 6 + i]);
    }
    assert forall|i: int| 0 <= i < j.len() implies !occurs_at(j + x, w, i) by {
        if occurs_at(j + x, w, i) {
            if i + 9 <= j.len() {
                assert((j + x).subrange(i, i + 9) =~= ty.subrange(q + 6 + i, q + 6 + i + 9));
                assert(occurs_at(ty, w, q + 6 + i));
            } else {
                let m = j.len() - 1 - i;
                assert((j + x)[j.len() - 1] == (j + x).subrange(i, i + 9)[m]);
                assert((j + x)[j.len() - 1] == ',');
                assert(w[m] != ',');
            }
        }
    }
    lemma_skip_to_next_section(pp, j, x);
}

/// A last section whose tail holds a name key leaves nothing more to read.
proof fn lemma_last_past_name_id(s: SectionView, end: Seq<char>)
    requires
        section_ok(s),
        contains_seq(section_tail(s), name_key()),
        forall|i: int| 0 <= i < end.len() ==> end[i] != '"' && end[i] != ':',
    ensures
        parse_sections(section_tail(s) + end) == Seq::<SectionView>::empty(),
{
    let k = name_key();
    let t = section_tail(s) + end;
    lemma_find_from_props(t, k, 0);
    let c = choose|c: int| occurs_at(section_tail(s), k, c);
    assert(occurs_at(t, k, c)) by {
        assert(t.subrange(c, c + 6) =~= section_tail(s).subrange(c, c + 6));
    }
    let q = find_seq(t, k)->0;
    lemma_tail_quiet_after_name(s, end, q);
    let r1 = t.skip(q + 6);
    lemma_find_char_from_props(r1, ':', 0);
    assert forall|i: int| 0 <= i < r1.len() implies r1[i] != ':' by {
        assert(r1[i] == t[q + 6 + i]);
    }
}

/// After the last section's windows key, ids without colons leave nothing
/// to read.
proof fn lemma_tail_without_colons(s: SectionView, end: Seq<char>)
    requires
        forall|j: int| 0 <= j < s.windows.len() ==> !(#[trigger] s.windows[j]).contains(':'),
        forall|q: int| 0 <= q < end.len() ==> end[q] != ':',
    ensures
        parse_sections(section_tail(s) + end) == Seq::<SectionView>::empty(),
{
    lemma_lit_section();
    let l = window_list_text(s.windows);
    let close = seq![']', '\n', ' ', ' ', ' ', ' ', '}'];
    let t = section_tail(s) + end;
    assert(t =~= seq![':', ' ', '['] + l + close + end);
    lemma_list_keeps_out(s.windows, ':');
    assert forall|q: int| 1 <= q < t.len() implies t[q] != ':' by {
        if 3 <= q < 3 + l.len() {
            assert(t[q] == l[q - 3]);
            if l[q - 3] == ':' {
                assert(l.contains(':'));
            }
        } else if 3 + l.len() <= q < 3 + l.len() + 7 {
            assert(t[q] == close[q - 3 - l.len()]);
        } else if q >= 3 + l.len() + 7 {
            assert(t[q] == end[q - 3 - l.len() - 7]);
        }
    }
    lemma_parse_without_colons(t);
}

/// After the last section's windows key, ids whose quoted text holds no
/// `"windows"` leave nothing to read: a name key met there finds no windows
/// key after it.
proof fn lemma_tail_without_windows_key(s: SectionView, end: Seq<char>)
    requires
        forall|j: int|
            0 <= j < s.windows.len() ==> !contains_seq(quoted(#[trigger] s.windows[j]), windows_key()),
        forall|q: int| 0 <= q < end.len() ==> end[q] != '"',
    ensures
        parse_sections(section_tail(s) + end) == Seq::<SectionView>::empty(),
{
    lemma_lit_section();
    let l = window_list_text(s.windows);
    let close = seq![']', '\n', ' ', ' ', ' ', ' ', '}'];
    let t = section_tail(s) + end;
    let w = windows_key();
    let letters = seq!['w', 'i', 'n', 'd', 'o', 'w', 's'];
    assert(w == seq!['"'] + letters + seq!['"']);
    assert(t =~= seq![':', ' ', '['] + (l + (close + end)));
    lemma_list_has_no_key(s.windows, close + end, letters);
    assert forall|q: int| 0 <= q implies !occurs_at(t, w, q) by {
        if occurs_at(t, w, q) {
            assert(t[q] == t.subrange(q, q + 9)[0]);
            if q < 3 {
            } else if q < 3 + l.len() {
                assert(t.subrange(q, q + 9) =~= (l + (close + end)).subrange(q - 3, q - 3 + 9));
                assert(occurs_at(l + (close + end), w, q - 3));
            } else if q < 3 + l.len() + 7 {
                assert(t[q] == close[q - 3 - l.len()]);
            } else {
                assert(t[q] == end[q - 3 - l.len() - 7]);
            }
        }
    }
    lemma_find_from_props(t, name_key(), 0);
    if let Some(p) = find_seq(t, name_key()) {
        if 0 <= p && p + 6 <= t.len() {
            let r1 = t.skip(p + 6);
            assert forall|q: int| 0 <= q implies !occurs_at(r1, w, q) by {
                if occurs_at(r1, w, q) {
                    assert(r1.subrange(q, q + 9) =~= t.subrange(p + 6 + q, p + 6 + q + 9));
                    assert(occurs_at(t, w, p + 6 + q));
                }
            }
            lemma_find_seq_none(r1, w);
        }
    }
}

/// Reading the sections' text after a prefix without name keys, before an
/// ending without quotes or colons, gives the sections back.
#[verifier::spinoff_prover]
#[verifier::rlimit(60)]
proof fn lemma_read_sections(p: Seq<char>, l: Seq<SectionView>, end: Seq<char>)
    requires
        !contains_seq(p, name_key()),
        forall|q: int| 0 <= q < end.len() ==> end[q] != '"' && end[q] != ':',
        forall|k: int| 0 <= k < l.len() - 1 ==> section_ok(#[trigger] l[k]),
        l.len() > 0 ==> last_section_survives(l.last()),
    ensures
        parse_sections(p + sections_text(l) + end) == l,
    decreases l.len(),
{
    let k = name_key();
    if l.len() == 0 {
        let t = p + sections_text(l) + end;
        assert(sections_text(l) == Seq::<char>::empty());
        assert forall|q: int| 0 <= q implies !occurs_at(t, k, q) by {
            if occurs_at(t, k, q) {
                assert(t[q + 5] == t.subrange(q, q + 6)[5]);
                if q + 5 < p.len() {
                    assert(t.subrange(q, q + 6) =~= p.subrange(q, q + 6));
                    assert(occurs_at(p, k, q));
                } else {
                    assert(t[q + 5] == end[q + 5 - p.len()]);
                }
            }
        }
        lemma_find_seq_none(t, k);
    } else {
        lemma_sections_front(l);
        let s = l[0];
        let more = if l.len() > 1 {
            seq![','] + sections_text(l.drop_first())
        } else {
            seq![]
        };
        assert(p + sections_text(l) + end =~= p + section_text(s) + (more + end));
        if l.len() > 1 {
            assert(section_ok(s));
        } else {
            assert(l.last() == s);
        }
        lemma_section_step(p, s, more + end);
        let tail = section_tail(s);
        if l.len() > 1 {
            let t = l.drop_first();
            let x = sections_text(t) + end;
            assert forall|j: int| 0 <= j < t.len() - 1 implies section_ok(#[trigger] t[j]) by {
                assert(t[j] == l[j + 1]);
            }
            assert(t.last() == l.last());
            assert(tail + (more + end) =~= tail + seq![','] + x);
            if contains_seq(tail, k) {
                lemma_sections_front(t);
                lemma_section_parts(t[0]);
                assert(x.subrange(0, 22) =~= section_head());
                lemma_read_past_name_id(s, x);
                lemma_read_sections(Seq::<char>::empty(), t, end);
                assert(Seq::<char>::empty() + sections_text(t) + end =~= x);
            } else {
                let p2 = tail + seq![','];
                assert(!contains_seq(p2, k)) by {
                    if contains_seq(p2, k) {
                        let q = choose|q: int| occurs_at(p2, k, q);
                        assert(p2[q + 5] == p2.subrange(q, q + 6)[5]);
                        assert(q + 6 <= tail.len());
                        assert(p2.subrange(q, q + 6) =~= tail.subrange(q, q + 6));
                        assert(occurs_at(tail, k, q));
                    }
                }
                lemma_read_sections(p2, t, end);
                assert(tail + (more + end) =~= p2 + sections_text(t) + end);
            }
            assert(seq![s] + t =~= l);
        } else {
            assert(tail + (more + end) =~= tail + Seq::<char>::empty() + end);
            assert(tail + Seq::<char>::empty() + end =~= tail + end);
            if section_ok(s) {
                if contains_seq(tail, k) {
                    lemma_last_past_name_id(s, end);
                } else {
                    lemma_read_sections(tail, Seq::<SectionView>::empty(), end);
                }
            } else if forall|j: int| 0 <= j < s.windows.len() ==> !(#[trigger] s.windows[j]).contains(':') {
                lemma_tail_without_colons(s, end);
            } else {
                lemma_tail_without_windows_key(s, end);
            }
            assert(seq![s] + Seq::<SectionView>::empty() =~= l);
        }
    }
}

/// What a layout writes, it reads back: `from_json(to_json(l)) == l`, for
/// every layout whose names and window ids hold no carriage return, whose
/// window ids hold no `]`, and where, after a window id that reads as a
/// `"name"` key (an id equal to `name` or ending in `"name`), no later id of
/// its section holds a `:` or, quoted and escaped, `"windows"` (in the last
/// section it is enough that no id there holds a `:`, or that none holds
/// `"windows"`). On the others the reader loses the carriage return, cuts
/// the window array short, or reads a section that was not written.
pub proof fn lemma_layout_round_trip(l: Seq<SectionView>)
    requires
        forall|k: int| 0 <= k < l.len() - 1 ==> section_ok(#[trigger] l[k]),
        l.len() > 0 ==> last_section_survives(l.last()),
    ensures
        parse_sections(layout_json(l)) == l,
{
    lemma_lit_head();
    lemma_lit_end();
    let head = "{\n  \"sections\": ["@;
    let end = (if l.len() > 0 {
        "\n  "@
    } else {
        seq![]
    }) + "]\n}\n"@;
    assert(layout_json(l) =~= head + sections_text(l) + end);
    assert(!contains_seq(head, name_key())) by {
        if contains_seq(head, name_key()) {
            let q = choose|q: int| occurs_at(head, name_key(), q);
            assert(head.subrange(q, q + 6)[0] == head[q]);
            assert(head.subrange(q, q + 6)[5] == head[q + 5]);
        }
    }
    lemma_read_sections(head, l, end);
}

} // verus!
