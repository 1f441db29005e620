//! Reading back a description record.
//!
//! `description_record` writes the cache record of a generated description;
//! the sidebar reads its `description` with `json_string_field`, and the
//! describer reads its `sample` and `signature` with `json_field` to decide
//! whether a window changed. This module proves that each read gives back
//! what was written, for every record whose text the reader cannot misread.
use vstd::prelude::*;

use crate::descriptions::{normalize_spec, record_spec, tail};
use crate::json::{
    after_key_colon, escape_char, escape_seq, field_text_spec, quoted_key, raw_scan,
    string_field_spec, string_value_start, unescape_scan,
};
use crate::roundtrip::{
    lemma_escape_front, lemma_find_seq_at, lemma_key_ends_at_closing_quote, quoted,
};
use crate::sections::unescape_char;
use crate::text::{contains_seq, find_char_from, lemma_find_char_from_props, occurs_at};

verus! {

// ---------------------------------------------------------------------------
// The record's text
// ---------------------------------------------------------------------------

spec fn part_name() -> Seq<char> {
    seq!['{', '\n', ' ', ' ', '"', 'n', 'a', 'm', 'e', '"', ':', ' ']
}

spec fn part_description() -> Seq<char> {
    seq![',', '\n', ' ', ' ', '"', 'd', 'e', 's', 'c', 'r', 'i', 'p', 't', 'i', 'o', 'n', '"', ':', ' ']
}

spec fn part_sample() -> Seq<char> {
    seq![',', '\n', ' ', ' ', '"', 's', 'a', 'm', 'p', 'l', 'e', '"', ':', ' ']
}

spec fn part_signature() -> Seq<char> {
    seq![',', '\n', ' ', ' ', '"', 's', 'i', 'g', 'n', 'a', 't', 'u', 'r', 'e', '"', ':', ' ']
}

spec fn part_window() -> Seq<char> {
    seq![',', '\n', ' ', ' ', '"', 'w', 'i', 'n', 'd', 'o', 'w', '"', ':', ' ']
}

/// `x` between quotes, unescaped.
spec fn raw_quoted(x: Seq<char>) -> Seq<char> {
    seq!['"'] + x + seq!['"']
}

/// What follows the description's value.
#[verifier::opaque]
spec fn after_description(sample: Seq<char>, signature: Seq<char>, win_index: Seq<char>) -> Seq<char> {
    part_sample() + quoted(sample) + after_sample(signature, win_index)
}

/// What follows the sample's value.
#[verifier::opaque]
spec fn after_sample(signature: Seq<char>, win_index: Seq<char>) -> Seq<char> {
    part_signature() + raw_quoted(signature) + after_signature(win_index)
}

/// What follows the signature's value.
#[verifier::opaque]
spec fn after_signature(win_index: Seq<char>) -> Seq<char> {
    part_window() + raw_quoted(win_index) + seq!['\n', '}', '\n']
}

proof fn lemma_after_description_starts(sample: Seq<char>, signature: Seq<char>, win_index: Seq<char>)
    ensures
        after_description(sample, signature, win_index).len() > 0,
        after_description(sample, signature, win_index)[0] == ',',
{
    reveal(after_description);
    let r = after_description(sample, signature, win_index);
    assert(r[0] == part_sample()[0]);
}

/// The record, cut at its keys and values.
proof fn lemma_record_parts(
    name: Seq<char>,
    description: Seq<char>,
    captured: Seq<char>,
    signature: Seq<char>,
    win_index: Seq<char>,
)
    ensures
        record_spec(name, description, captured, signature, win_index) == part_name() + quoted(name)
            + part_description() + quoted(description) + after_description(
            tail(normalize_spec(captured), 4000),
            signature,
            win_index,
        ),
{
    reveal_strlit("{\n  \"name\": \"");
    reveal_strlit("\",\n  \"description\": \"");
    reveal_strlit("\",\n  \"sample\": \"");
    reveal_strlit("\",\n  \"signature\": \"");
    reveal_strlit("\",\n  \"window\": \"");
    reveal_strlit("\"\n}\n");
    reveal(after_description);
    reveal(after_sample);
    reveal(after_signature);
    assert(record_spec(name, description, captured, signature, win_index) =~= part_name() + quoted(
        name,
    ) + part_description() + quoted(description) + after_description(
        tail(normalize_spec(captured), 4000),
        signature,
        win_index,
    ));
}

proof fn lemma_keys()
    ensures
        quoted_key("description"@) == seq!['"'] + seq!['d', 'e', 's', 'c', 'r', 'i', 'p', 't', 'i', 'o', 'n'] + seq!['"'],
        quoted_key("sample"@) == seq!['"'] + seq!['s', 'a', 'm', 'p', 'l', 'e'] + seq!['"'],
        quoted_key("signature"@) == seq!['"'] + seq!['s', 'i', 'g', 'n', 'a', 't', 'u', 'r', 'e'] + seq!['"'],
{
    reveal_strlit("description");
    reveal_strlit("sample");
    reveal_strlit("signature");
    assert(quoted_key("description"@) =~= seq!['"'] + seq!['d', 'e', 's', 'c', 'r', 'i', 'p', 't', 'i', 'o', 'n'] + seq!['"']);
    assert(quoted_key("sample"@) =~= seq!['"'] + seq!['s', 'a', 'm', 'p', 'l', 'e'] + seq!['"']);
    assert(quoted_key("signature"@) =~= seq!['"'] + seq!['s', 'i', 'g', 'n', 'a', 't', 'u', 'r', 'e'] + seq!['"']);
}

// ---------------------------------------------------------------------------
// Where a key is first met
// ---------------------------------------------------------------------------

/// No key starts in a stretch of fixed text whose quotes are followed by
/// something other than the key's first two letters.
pub(crate) proof fn lemma_no_key_in_plain(text: Seq<char>, off: int, p: Seq<char>, key: Seq<char>)
    requires
        0 <= off,
        off + p.len() <= text.len(),
        text.subrange(off, off + p.len()) == p,
        key.len() >= 3,
        key[0] == '"',
        forall|j: int|
            0 <= j < p.len() && #[trigger] p[j] == '"' ==> (j + 1 < p.len() && p[j + 1] != key[1]) || (j
                + 2 < p.len() && p[j + 2] != key[2]),
    ensures
        forall|q: int| off <= q < off + p.len() ==> !occurs_at(text, key, q),
{
    assert forall|q: int| off <= q < off + p.len() implies !occurs_at(text, key, q) by {
        if occurs_at(text, key, q) {
            let w = text.subrange(q, q + key.len());
            assert(text[q] == w[0]);
            assert(text[q] == p[q - off]);
            if q + 1 < off + p.len() {
                assert(text[q + 1] == w[1]);
                assert(text[q + 1] == p[q + 1 - off]);
            }
            if q + 2 < off + p.len() {
                assert(text[q + 2] == w[2]);
                assert(text[q + 2] == p[q + 2 - off]);
            }
        }
    }
}

/// No key starts inside a quoted value that does not hold the key, when the
/// value is followed by something other than the key's first letter.
pub(crate) proof fn lemma_no_key_in_quoted(text: Seq<char>, off: int, x: Seq<char>, letters: Seq<char>)
    requires
        0 <= off,
        off + quoted(x).len() < text.len(),
        text.subrange(off, off + quoted(x).len()) == quoted(x),
        letters.len() >= 1,
        forall|k: int| 0 <= k < letters.len() ==> letters[k] != '"' && letters[k] != '\\',
        text[off + quoted(x).len()] != letters[0],
        !contains_seq(quoted(x), seq!['"'] + letters + seq!['"']),
    ensures
        forall|q: int|
            off <= q < off + quoted(x).len() ==> !occurs_at(text, seq!['"'] + letters + seq!['"'], q),
{
    let key = seq!['"'] + letters + seq!['"'];
    let z = text.skip(off + quoted(x).len());
    let u = text.skip(off);
    assert(u =~= quoted(x) + z);
    assert(z[0] == text[off + quoted(x).len()]);
    assert forall|q: int| off <= q < off + quoted(x).len() implies !occurs_at(text, key, q) by {
        if occurs_at(text, key, q) {
            assert(u.subrange(q - off, q - off + key.len()) =~= text.subrange(q, q + key.len()));
            assert(occurs_at(quoted(x) + z, key, q - off));
            lemma_key_ends_at_closing_quote(x, z, letters, q - off);
            assert(quoted(x).subrange(q - off, q - off + key.len()) =~= u.subrange(
                q - off,
                q - off + key.len(),
            ));
            assert(occurs_at(quoted(x), key, q - off));
        }
    }
}

/// A key met first at `p`, followed by `: "`, has its value from `p` plus
/// the key's length plus three.
proof fn lemma_value_start(text: Seq<char>, k: Seq<char>, p: int)
    requires
        occurs_at(text, quoted_key(k), p),
        forall|q: int| 0 <= q < p ==> !occurs_at(text, quoted_key(k), q),
        p + quoted_key(k).len() + 2 < text.len(),
        text[p + quoted_key(k).len()] == ':',
        text[p + quoted_key(k).len() + 1] == ' ',
        text[p + quoted_key(k).len() + 2] == '"',
    ensures
        string_value_start(text, k) == Some(p + quoted_key(k).len() + 3),
{
    let n = quoted_key(k).len();
    lemma_find_seq_at(text, quoted_key(k), p);
    lemma_find_char_from_props(text, ':', p + n);
    assert(after_key_colon(text, k) == Some(p + n + 1));
    lemma_find_char_from_props(text, '"', p + n + 1);
    assert(find_char_from(text, '"', p + n + 1) == Some(p + n + 2));
}

// ---------------------------------------------------------------------------
// Reading values
// ---------------------------------------------------------------------------

/// Reading escaped text literally gives it back when it holds no line
/// breaks, tabs or carriage returns.
proof fn lemma_raw_scan_escaped(t: Seq<char>, i: int, x: Seq<char>, acc: Seq<char>)
    requires
        0 <= i,
        i + escape_seq(x).len() < t.len(),
        t.subrange(i, i + escape_seq(x).len()) == escape_seq(x),
        t[i + escape_seq(x).len()] == '"',
        !x.contains('\n'),
        !x.contains('\t'),
        !x.contains('\r'),
    ensures
        raw_scan(t, i, acc) == Some(acc + x),
    decreases x.len(),
{
    let n = escape_seq(x).len();
    if x.len() == 0 {
        assert(acc + x =~= acc);
    } else {
        lemma_escape_front(x);
        let c = x[0];
        let rest = x.drop_first();
        let e = escape_char(c);
        let m = escape_seq(rest).len();
        assert(c != '\n' && c != '\t' && c != '\r') by {
            assert(x.contains(x[0]));
        }
        assert forall|ch: char| ch == '\n' || ch == '\t' || ch == '\r' implies !rest.contains(ch) by {
            if rest.contains(ch) {
                let k = choose|k: int| 0 <= k < rest.len() && rest[k] == ch;
                assert(x[k + 1] == ch);
                assert(x.contains(ch));
            }
        }
        assert(t.subrange(i + e.len(), i + n) =~= escape_seq(rest)) by {
            assert forall|k: int| 0 <= k < m implies t.subrange(i + e.len(), i + n)[k] == escape_seq(rest)[k] by {
                assert(t[i + e.len() + k] == t.subrange(i, i + n)[e.len() + k]);
            }
        }
        assert(t[i] == t.subrange(i, i + n)[0]);
        assert(t[i + e.len() + m] == t[i + n]);
        lemma_raw_scan_escaped(t, i + e.len(), rest, acc.push(c));
        if c == '"' || c == '\\' {
            assert(t[i + 1] == t.subrange(i, i + n)[1]);
            assert(t[i] == '\\');
            assert(t[i + 1] == c);
        } else {
            assert(e == seq![c]);
            assert(t[i] == c);
        }
        assert(acc.push(c) + rest =~= acc + x);
    }
}

/// Reading escaped text with `\n` and `\t` decoded gives it back when it
/// holds no carriage return.
pub(crate) proof fn lemma_unescape_scan_escaped(t: Seq<char>, i: int, x: Seq<char>, acc: Seq<char>)
    requires
        0 <= i,
        i + escape_seq(x).len() < t.len(),
        t.subrange(i, i + escape_seq(x).len()) == escape_seq(x),
        t[i + escape_seq(x).len()] == '"',
        !x.contains('\r'),
    ensures
        unescape_scan(t, i, acc) == acc + x,
    decreases x.len(),
{
    let n = escape_seq(x).len();
    if x.len() == 0 {
        assert(acc + x =~= acc);
    } else {
        lemma_escape_front(x);
        let c = x[0];
        let rest = x.drop_first();
        let e = escape_char(c);
        let m = escape_seq(rest).len();
        assert(c != '\r') by {
            assert(x.contains(x[0]));
        }
        assert(!rest.contains('\r')) by {
            if rest.contains('\r') {
                let k = choose|k: int| 0 <= k < rest.len() && rest[k] == '\r';
                assert(x[k + 1] == '\r');
            }
        }
        assert(t.subrange(i + e.len(), i + n) =~= escape_seq(rest)) by {
            assert forall|k: int| 0 <= k < m implies t.subrange(i + e.len(), i + n)[k] == escape_seq(rest)[k] by {
                assert(t[i + e.len() + k] == t.subrange(i, i + n)[e.len() + k]);
            }
        }
        assert(t[i] == t.subrange(i, i + n)[0]);
        assert(t[i + e.len() + m] == t[i + n]);
        lemma_unescape_scan_escaped(t, i + e.len(), rest, acc.push(c));
        if c == '"' || c == '\\' || c == '\n' || c == '\t' {
            assert(t[i + 1] == t.subrange(i, i + n)[1]);
            assert(t[i] == '\\');
            assert(unescape_char(t[i + 1]) == c);
        } else {
            assert(e == seq![c]);
            assert(t[i] == c);
        }
        assert(acc.push(c) + rest =~= acc + x);
    }
}

/// Reading text without quotes or backslashes up to a quote gives it back.
proof fn lemma_unescape_scan_plain(t: Seq<char>, i: int, x: Seq<char>, acc: Seq<char>)
    requires
        0 <= i,
        i + x.len() < t.len(),
        t.subrange(i, i + x.len()) == x,
        t[i + x.len()] == '"',
        !x.contains('"'),
        !x.contains('\\'),
    ensures
        unescape_scan(t, i, acc) == acc + x,
    decreases x.len(),
{
    if x.len() == 0 {
        assert(acc + x =~= acc);
    } else {
        let rest = x.drop_first();
        assert(t[i] == t.subrange(i, i + x.len())[0]);
        assert(x.contains(x[0]));
        assert(t.subrange(i + 1, i + 1 + rest.len()) =~= rest) by {
            assert forall|k: int| 0 <= k < rest.len() implies t.subrange(i + 1, i + 1 + rest.len())[k] == rest[k] by {
                assert(t[i + 1 + k] == t.subrange(i, i + x.len())[k + 1]);
            }
        }
        assert(!rest.contains('"') && !rest.contains('\\')) by {
            if rest.contains('"') {
                let k = choose|k: int| 0 <= k < rest.len() && rest[k] == '"';
                assert(x[k + 1] == '"');
            }
            if rest.contains('\\') {
                let k = choose|k: int| 0 <= k < rest.len() && rest[k] == '\\';
                assert(x[k + 1] == '\\');
            }
        }
        lemma_unescape_scan_plain(t, i + 1, rest, acc.push(x[0]));
        assert(acc.push(x[0]) + rest =~= acc + x);
    }
}

// ---------------------------------------------------------------------------
// The laws
// ---------------------------------------------------------------------------

/// The sidebar reads back the description a record was written with, for
/// every description without line breaks, tabs or carriage returns, unless
/// the name, quoted and escaped, holds `"description"` (a name equal to
/// `description` or ending in `"description`): the reader would take that
/// for the key.
pub proof fn lemma_description_read_back(
    name: Seq<char>,
    description: Seq<char>,
    captured: Seq<char>,
    signature: Seq<char>,
    win_index: Seq<char>,
)
    requires
        !contains_seq(quoted(name), quoted_key("description"@)),
        !description.contains('\n'),
        !description.contains('\t'),
        !description.contains('\r'),
    ensures
        string_field_spec(record_spec(name, description, captured, signature, win_index), "description"@)
            == Some(description),
{
    lemma_record_parts(name, description, captured, signature, win_index);
    lemma_description_in(
        name,
        description,
        after_description(tail(normalize_spec(captured), 4000), signature, win_index),
    );
}

proof fn lemma_description_in(name: Seq<char>, description: Seq<char>, rest: Seq<char>)
    requires
        !contains_seq(quoted(name), quoted_key("description"@)),
        !description.contains('\n'),
        !description.contains('\t'),
        !description.contains('\r'),
    ensures
        string_field_spec(part_name() + quoted(name) + part_description() + quoted(description) + rest, "description"@)
            == Some(description),
{
    let text = part_name() + quoted(name) + part_description() + quoted(description) + rest;
    lemma_keys();
    let letters = seq!['d', 'e', 's', 'c', 'r', 'i', 'p', 't', 'i', 'o', 'n'];
    let key = quoted_key("description"@);
    let qn = quoted(name);
    let e2 = escape_seq(description);
    let a: int = 12;
    let b: int = a + qn.len();
    let p: int = b + 4;
    let v: int = p + 16;
    assert(text.subrange(0, a) =~= part_name());
    assert(text.subrange(a, b) =~= qn);
    assert(text[b] == ',');
    assert(text.subrange(b, b + 4) =~= seq![',', '\n', ' ', ' ']);
    assert(text.subrange(p, p + 13) =~= key);
    assert(text[p + 13] == ':' && text[p + 14] == ' ' && text[p + 15] == '"');
    assert(text.subrange(v, v + e2.len()) =~= e2);
    assert(text[v + e2.len()] == '"');
    lemma_no_key_in_plain(text, 0, part_name(), key);
    lemma_no_key_in_quoted(text, a, name, letters);
    lemma_no_key_in_plain(text, b, seq![',', '\n', ' ', ' '], key);
    lemma_value_start(text, "description"@, p);
    lemma_raw_scan_escaped(text, v, description, seq![]);
    assert(seq![] + description =~= description);
}

/// The describer reads back the sample and the signature a record was
/// written with, when the sample holds no carriage return, the signature no
/// quote or backslash, and no earlier value, quoted and escaped, holds the
/// key being read (a value equal to `sample` or `signature`, or ending in
/// `"sample` or `"signature`).
pub proof fn lemma_sample_and_signature_read_back(
    name: Seq<char>,
    description: Seq<char>,
    captured: Seq<char>,
    signature: Seq<char>,
    win_index: Seq<char>,
)
    requires
        !tail(normalize_spec(captured), 4000).contains('\r'),
        !signature.contains('"'),
        !signature.contains('\\'),
        !contains_seq(quoted(name), quoted_key("sample"@)),
        !contains_seq(quoted(description), quoted_key("sample"@)),
        !contains_seq(quoted(name), quoted_key("signature"@)),
        !contains_seq(quoted(description), quoted_key("signature"@)),
        !contains_seq(quoted(tail(normalize_spec(captured), 4000)), quoted_key("signature"@)),
    ensures
        field_text_spec(record_spec(name, description, captured, signature, win_index), "sample"@)
            == tail(normalize_spec(captured), 4000),
        field_text_spec(record_spec(name, description, captured, signature, win_index), "signature"@)
            == signature,
{
    let sample = tail(normalize_spec(captured), 4000);
    lemma_record_parts(name, description, captured, signature, win_index);
    let head = part_name() + quoted(name) + part_description() + quoted(description);
    lemma_keys();
    lemma_after_description_starts(sample, signature, win_index);
    lemma_head_has_no_key(name, description, after_description(sample, signature, win_index), seq!['s', 'a', 'm', 'p', 'l', 'e']);
    lemma_head_has_no_key(name, description, after_description(sample, signature, win_index), seq!['s', 'i', 'g', 'n', 'a', 't', 'u', 'r', 'e']);
    reveal(after_description);
    lemma_sample_in(head, sample, after_sample(signature, win_index));
    reveal(after_sample);
    lemma_signature_in(head, sample, signature, after_signature(win_index));
}

/// No key of these letters starts in the name or description part, when
/// neither value holds it and something other than its first letter
/// follows.
proof fn lemma_head_has_no_key(name: Seq<char>, description: Seq<char>, rest: Seq<char>, letters: Seq<char>)
    requires
        letters.len() >= 2,
        forall|k: int| 0 <= k < letters.len() ==> letters[k] != '"' && letters[k] != '\\',
        letters[0] == 's',
        letters[1] != 'n' && letters[1] != ':' && letters[1] != 'd' && letters[1] != 'e',
        rest.len() > 0,
        rest[0] == ',',
        !contains_seq(quoted(name), seq!['"'] + letters + seq!['"']),
        !contains_seq(quoted(description), seq!['"'] + letters + seq!['"']),
    ensures
        ({
            let head = part_name() + quoted(name) + part_description() + quoted(description);
            forall|q: int| 0 <= q < head.len() ==> !occurs_at(head + rest, seq!['"'] + letters + seq!['"'], q)
        }),
{
    let key = seq!['"'] + letters + seq!['"'];
    let head = part_name() + quoted(name) + part_description() + quoted(description);
    let text = head + rest;
    let qn = quoted(name);
    let qd = quoted(description);
    let a: int = 12;
    let b: int = a + qn.len();
    let c: int = b + 19;
    let d: int = c + qd.len();
    assert(key[1] == letters[0] && key[2] == letters[1]);
    assert(text.subrange(0, a) =~= part_name());
    assert(text.subrange(a, b) =~= qn);
    assert(text.subrange(b, c) =~= part_description());
    assert(text.subrange(c, d) =~= qd);
    assert(text[b] == ',' && text[d] == ',');
    lemma_no_key_in_plain(text, 0, part_name(), key);
    lemma_no_key_in_quoted(text, a, name, letters);
    lemma_no_key_in_plain(text, b, part_description(), key);
    lemma_no_key_in_quoted(text, c, description, letters);
}

proof fn lemma_sample_in(head: Seq<char>, sample: Seq<char>, rest: Seq<char>)
    requires
        !sample.contains('\r'),
        forall|q: int| 0 <= q < head.len() ==> !occurs_at(head + (part_sample() + quoted(sample) + rest), quoted_key("sample"@), q),
    ensures
        field_text_spec(head + (part_sample() + quoted(sample) + rest), "sample"@) == sample,
{
    lemma_keys();
    let ks = quoted_key("sample"@);
    let text = head + (part_sample() + quoted(sample) + rest);
    let d = head.len() as int;
    let ps: int = d + 4;
    let vs: int = ps + 11;
    let es = escape_seq(sample);
    assert(text.subrange(d, d + 4) =~= seq![',', '\n', ' ', ' ']);
    assert(text.subrange(ps, ps + 8) =~= ks);
    assert(text[ps + 8] == ':' && text[ps + 9] == ' ' && text[ps + 10] == '"');
    assert(text.subrange(vs, vs + es.len()) =~= es);
    assert(text[vs + es.len()] == '"');
    lemma_no_key_in_plain(text, d, seq![',', '\n', ' ', ' '], ks);
    lemma_value_start(text, "sample"@, ps);
    lemma_unescape_scan_escaped(text, vs, sample, seq![]);
    assert(seq![] + sample =~= sample);
}

proof fn lemma_signature_in(head: Seq<char>, sample: Seq<char>, signature: Seq<char>, rest: Seq<char>)
    requires
        !signature.contains('"'),
        !signature.contains('\\'),
        !contains_seq(quoted(sample), quoted_key("signature"@)),
        forall|q: int|
            0 <= q < head.len() ==> !occurs_at(
                head + (part_sample() + quoted(sample) + (part_signature() + raw_quoted(signature) + rest)),
                quoted_key("signature"@),
                q,
            ),
    ensures
        field_text_spec(
            head + (part_sample() + quoted(sample) + (part_signature() + raw_quoted(signature) + rest)),
            "signature"@,
        ) == signature,
{
    lemma_keys();
    let kg = quoted_key("signature"@);
    let lg = seq!['s', 'i', 'g', 'n', 'a', 't', 'u', 'r', 'e'];
    let text = head + (part_sample() + quoted(sample) + (part_signature() + raw_quoted(signature) + rest));
    let qs = quoted(sample);
    let d = head.len() as int;
    let e: int = d + 14;
    let f: int = e + qs.len();
    let pg: int = f + 4;
    let vg: int = pg + 14;
    assert(text.subrange(d, e) =~= part_sample());
    assert(text.subrange(e, f) =~= qs);
    assert(text[f] == ',');
    assert(text.subrange(f, f + 4) =~= seq![',', '\n', ' ', ' ']);
    assert(text.subrange(pg, pg + 11) =~= kg);
    assert(text[pg + 11] == ':' && text[pg + 12] == ' ' && text[pg + 13] == '"');
    assert(text.subrange(vg, vg + signature.len()) =~= signature);
    assert(text[vg + signature.len()] == '"');
    lemma_no_key_in_plain(text, d, part_sample(), kg);
    lemma_no_key_in_quoted(text, e, sample, lg);
    lemma_no_key_in_plain(text, f, seq![',', '\n', ' ', ' '], kg);
    lemma_value_start(text, "signature"@, pg);
    lemma_unescape_scan_plain(text, vg, signature, seq![]);
    assert(seq![] + signature =~= signature);
}

/// A string value written escaped under a key is read back by `json_field`:
/// `field_text_spec("{\"key\": \"" + escape(value) + "\"}", key) == value`,
/// for every key and every value without carriage returns (the escaper
/// drops those).
pub proof fn lemma_field_round_trip(key: Seq<char>, value: Seq<char>)
    requires
        !value.contains('\r'),
    ensures
        field_text_spec(
            seq!['{'] + quoted_key(key) + seq![':', ' ', '"'] + escape_seq(value) + seq!['"', '}'],
            key,
        ) == value,
{
    let qk = quoted_key(key);
    let e = escape_seq(value);
    let text = seq!['{'] + qk + seq![':', ' ', '"'] + e + seq!['"', '}'];
    let n = qk.len() as int;
    let v: int = 1 + n + 3;
    assert(text.subrange(1, 1 + n) =~= qk);
    assert(text[0] == '{');
    assert forall|q: int| 0 <= q < 1 implies !occurs_at(text, qk, q) by {
        if occurs_at(text, qk, q) {
            assert(text[q] == text.subrange(q, q + n)[0]);
            assert(qk[0] == '"');
        }
    }
    assert(text[1 + n] == ':' && text[2 + n] == ' ' && text[3 + n] == '"');
    lemma_value_start(text, key, 1);
    assert(text.subrange(v, v + e.len()) =~= e);
    assert(text[v + e.len()] == '"');
    lemma_unescape_scan_escaped(text, v, value, seq![]);
    assert(seq![] + value =~= value);
}

} // verus!
