//! Escaping text for the hand-written JSON this crate emits.
use vstd::prelude::*;

use crate::sections::unescape_char;
use crate::text::{
    chars_of, occurs_at, find_char_from, find_char_in, find_from, find_in, find_seq, is_digit,
    lemma_find_char_from_props, lemma_find_from_props, parse_digits, parse_digits_u64, push_char,
    skip_ws_from, starts_with, starts_with_chars, trim_start_ws,
};

verus! {

/// The JSON text for one character: quotes, backslashes, newlines and tabs
/// are escaped, carriage returns are dropped, anything else stays.
pub open spec fn escape_char(c: char) -> Seq<char> {
    if c == '"' {
        seq!['\\', '"']
    } else if c == '\\' {
        seq!['\\', '\\']
    } else if c == '\n' {
        seq!['\\', 'n']
    } else if c == '\t' {
        seq!['\\', 't']
    } else if c == '\r' {
        seq![]
    } else {
        seq![c]
    }
}

/// The escaped text of a whole string.
pub open spec fn escape_seq(s: Seq<char>) -> Seq<char>
    decreases s.len(),
{
    if s.len() == 0 {
        seq![]
    } else {
        escape_seq(s.drop_last()) + escape_char(s.last())
    }
}

/// Appends the escaped form of `s` to `out`.
pub fn push_escaped(out: &mut String, s: &str)
    ensures
        final(out)@ == old(out)@ + escape_seq(s@),
{
    broadcast use vstd::string::group_string_axioms;

    let ghost start = out@;
    assert(s@.take(0) =~= Seq::<char>::empty());
    assert(start + escape_seq(Seq::<char>::empty()) =~= start);
    for c in it: s.chars()
        invariant
            it.seq() == s@,
            out@ == start + escape_seq(s@.take(it.index() as int)),
    {
        let ghost i = it.index();
        if c == '"' {
            push_char(out, '\\');
            push_char(out, '"');
        } else if c == '\\' {
            push_char(out, '\\');
            push_char(out, '\\');
        } else if c == '\n' {
            push_char(out, '\\');
            push_char(out, 'n');
        } else if c == '\t' {
            push_char(out, '\\');
            push_char(out, 't');
        } else if c == '\r' {
        } else {
            push_char(out, c);
        }
        proof {
            let t = s@.take(i + 1);
            assert(t.drop_last() =~= s@.take(i));
            assert(t.last() == c);
            assert(out@ =~= start + escape_seq(t));
        }
    }
    assert(s@.take(s@.len() as int) =~= s@);
}

/// `s` with quotes, backslashes, newlines and tabs escaped and carriage
/// returns dropped.
pub fn json_escape(s: &str) -> (r: String)
    ensures
        r@ == escape_seq(s@),
{
    let mut out = String::new();
    push_escaped(&mut out, s);
    assert(Seq::<char>::empty() + escape_seq(s@) =~= escape_seq(s@));
    out
}

// ---------------------------------------------------------------------------
// Reading single fields of flat JSON objects
// ---------------------------------------------------------------------------

/// `"key"`, as it appears in the text.
pub open spec fn quoted_key(key: Seq<char>) -> Seq<char> {
    seq!['"'] + key + seq!['"']
}

/// The position just after the first `:` that follows the first `"key"`.
pub open spec fn after_key_colon(text: Seq<char>, key: Seq<char>) -> Option<int> {
    match find_seq(text, quoted_key(key)) {
        Some(p) => match find_char_from(text, ':', p + quoted_key(key).len()) {
            Some(c) => Some(c + 1),
            None => None,
        },
        None => None,
    }
}

/// The position just after the opening quote of `key`'s string value.
pub open spec fn string_value_start(text: Seq<char>, key: Seq<char>) -> Option<int> {
    match after_key_colon(text, key) {
        Some(a) => match find_char_from(text, '"', a) {
            Some(q) => Some(q + 1),
            None => None,
        },
        None => None,
    }
}

/// Reads a string body from `i`: a backslash takes the next character as it
/// is; `None` when no closing quote comes.
pub open spec fn raw_scan(t: Seq<char>, i: int, acc: Seq<char>) -> Option<Seq<char>>
    decreases t.len() - i,
{
    if i < 0 || i >= t.len() {
        None
    } else if t[i] == '"' {
        Some(acc)
    } else if t[i] == '\\' {
        if i + 1 < t.len() {
            raw_scan(t, i + 2, acc.push(t[i + 1]))
        } else {
            None
        }
    } else {
        raw_scan(t, i + 1, acc.push(t[i]))
    }
}

/// Reads a string body from `i`, decoding `\n` and `\t`; the text ends the
/// value when no closing quote comes.
pub open spec fn unescape_scan(t: Seq<char>, i: int, acc: Seq<char>) -> Seq<char>
    decreases t.len() - i,
{
    if i < 0 || i >= t.len() {
        acc
    } else if t[i] == '"' {
        acc
    } else if t[i] == '\\' {
        if i + 1 < t.len() {
            unescape_scan(t, i + 2, acc.push(unescape_char(t[i + 1])))
        } else {
            acc
        }
    } else {
        unescape_scan(t, i + 1, acc.push(t[i]))
    }
}

/// The string value of `key`, escapes taken literally.
pub open spec fn string_field_spec(text: Seq<char>, key: Seq<char>) -> Option<Seq<char>> {
    match string_value_start(text, key) {
        Some(s) => raw_scan(text, s, seq![]),
        None => None,
    }
}

/// The string value of `key` with `\n` and `\t` decoded; empty when absent.
pub open spec fn field_text_spec(text: Seq<char>, key: Seq<char>) -> Seq<char> {
    match string_value_start(text, key) {
        Some(s) => unescape_scan(text, s, seq![]),
        None => seq![],
    }
}

/// The leading ASCII digits of `s`.
pub open spec fn leading_digits(s: Seq<char>) -> Seq<char>
    decreases s.len(),
{
    if s.len() > 0 && is_digit(s[0]) {
        seq![s[0]] + leading_digits(s.drop_first())
    } else {
        seq![]
    }
}

/// The unsigned number after `key`'s colon, whitespace skipped.
pub open spec fn u64_field_spec(text: Seq<char>, key: Seq<char>) -> Option<u64> {
    match after_key_colon(text, key) {
        Some(a) => parse_digits_u64(leading_digits(trim_start_ws(text.skip(a)))),
        None => None,
    }
}

/// `true` or `false` after `key`'s colon, whitespace skipped.
pub open spec fn bool_field_spec(text: Seq<char>, key: Seq<char>) -> Option<bool> {
    match after_key_colon(text, key) {
        Some(a) => {
            let v = trim_start_ws(text.skip(a));
            if starts_with(v, "true"@) {
                Some(true)
            } else if starts_with(v, "false"@) {
                Some(false)
            } else {
                None
            }
        },
        None => None,
    }
}

/// The position after `key`'s colon in `v`.
fn key_colon(v: &Vec<char>, key: &str) -> (r: Option<usize>)
    ensures
        r matches Some(a) ==> after_key_colon(v@, key@) == Some(a as int) && a <= v@.len(),
        r is None ==> after_key_colon(v@, key@) is None,
{
    let mut needle: Vec<char> = Vec::new();
    needle.push('"');
    let k = chars_of(key);
    let mut i: usize = 0;
    while i < k.len()
        invariant
            i <= k.len(),
            needle@ == seq!['"'] + k@.take(i as int),
        decreases k.len() - i,
    {
        needle.push(k[i]);
        assert(k@.take(i as int + 1) =~= k@.take(i as int).push(k@[i as int]));
        i += 1;
    }
    needle.push('"');
    assert(k@.take(k.len() as int) =~= k@);
    assert(needle@ =~= quoted_key(key@));
    match find_in(v.as_slice(), needle.as_slice(), 0) {
        Some(p) => {
            proof {
                lemma_find_from_props(v@, needle@, 0);
                assert(occurs_at(v@, needle@, p as int));
                assert(p + needle@.len() <= v@.len());
            }
            let vlen = v.len();
            assert(p + needle.len() <= vlen);
            match find_char_in(v.as_slice(), ':', p + needle.len()) {
                Some(c) => {
                    proof {
                        lemma_find_char_from_props(v@, ':', p + needle.len());
                    }
                    Some(c + 1)
                },
                None => None,
            }
        },
        None => None,
    }
}

/// The position after the opening quote of `key`'s value in `v`.
fn value_start(v: &Vec<char>, key: &str) -> (r: Option<usize>)
    ensures
        r matches Some(s) ==> string_value_start(v@, key@) == Some(s as int) && s <= v@.len(),
        r is None ==> string_value_start(v@, key@) is None,
{
    match key_colon(v, key) {
        Some(a) => match find_char_in(v.as_slice(), '"', a) {
            Some(q) => {
                proof {
                    lemma_find_char_from_props(v@, '"', a as int);
                }
                let vlen = v.len();
                assert(q < vlen);
                Some(q + 1)
            },
            None => None,
        },
        None => None,
    }
}

/// Minimal reader of `"key": "value"` in a flat JSON object; a backslash
/// takes the next character as it is.
pub fn json_string_field(text: &str, key: &str) -> (r: Option<String>)
    ensures
        match r {
            Some(s) => string_field_spec(text@, key@) == Some(s@),
            None => string_field_spec(text@, key@) is None,
        },
{
    let v = chars_of(text);
    let start = match value_start(&v, key) {
        Some(s) => s,
        None => return None,
    };
    let mut value = String::new();
    let mut i = start;
    while i < v.len()
        invariant
            start <= i <= v.len() + 1,
            v@ == text@,
            string_value_start(v@, key@) == Some(start as int),
            raw_scan(v@, start as int, seq![]) == raw_scan(v@, i as int, value@),
        decreases v.len() + 1 - i,
    {
        let c = v[i];
        if c == '"' {
            return Some(value);
        } else if c == '\\' {
            if i + 1 < v.len() {
                push_char(&mut value, v[i + 1]);
                i += 2;
            } else {
                return None;
            }
        } else {
            push_char(&mut value, c);
            i += 1;
        }
    }
    None
}

/// Reads `key`'s string value, decoding `\n` and `\t`; empty when absent.
pub fn json_field(text: &str, key: &str) -> (r: String)
    ensures
        r@ == field_text_spec(text@, key@),
{
    let v = chars_of(text);
    let start = match value_start(&v, key) {
        Some(s) => s,
        None => return String::new(),
    };
    let mut value = String::new();
    let mut i = start;
    while i < v.len()
        invariant
            start <= i <= v.len() + 1,
            v@ == text@,
            string_value_start(v@, key@) == Some(start as int),
            unescape_scan(v@, start as int, seq![]) == unescape_scan(v@, i as int, value@),
        decreases v.len() + 1 - i,
    {
        let c = v[i];
        if c == '"' {
            return value;
        } else if c == '\\' {
            if i + 1 < v.len() {
                let n = v[i + 1];
                let d = if n == 'n' {
                    '\n'
                } else if n == 't' {
                    '\t'
                } else {
                    n
                };
                push_char(&mut value, d);
                i += 2;
            } else {
                return value;
            }
        } else {
            push_char(&mut value, c);
            i += 1;
        }
    }
    value
}

/// Reads the unsigned number after `key`'s colon.
pub fn json_u64_field(text: &str, key: &str) -> (r: Option<u64>)
    ensures
        r == u64_field_spec(text@, key@),
{
    let v = chars_of(text);
    let a = match key_colon(&v, key) {
        Some(a) => a,
        None => return None,
    };
    let b = skip_ws_from(v.as_slice(), a);
    let mut e = b;
    proof {
        assert(leading_digits(v@.skip(b as int)) == leading_digits(v@.skip(e as int)).take(0)
            + leading_digits(v@.skip(e as int))) by {
            assert(leading_digits(v@.skip(e as int)).take(0) =~= Seq::<char>::empty());
        }
    }
    while e < v.len() && '0' <= v[e] && v[e] <= '9'
        invariant
            b <= e <= v.len(),
            leading_digits(v@.skip(b as int)) == v@.subrange(b as int, e as int) + leading_digits(
                v@.skip(e as int),
            ),
        decreases v.len() - e,
    {
        proof {
            let t = v@.skip(e as int);
            assert(t[0] == v@[e as int]);
            assert(t.drop_first() =~= v@.skip(e + 1));
            assert(v@.subrange(b as int, e + 1) =~= v@.subrange(b as int, e as int) + seq![
                v@[e as int],
            ]);
        }
        e += 1;
    }
    proof {
        let t = v@.skip(e as int);
        if e < v.len() {
            assert(t[0] == v@[e as int]);
        }
        assert(leading_digits(t) =~= Seq::<char>::empty());
        assert(v@.subrange(b as int, e as int) + leading_digits(t) =~= v@.subrange(
            b as int,
            e as int,
        ));
    }
    parse_digits(v.as_slice(), b, e)
}

/// Reads `true` or `false` after `key`'s colon.
pub fn json_bool_field(text: &str, key: &str) -> (r: Option<bool>)
    ensures
        r == bool_field_spec(text@, key@),
{
    let v = chars_of(text);
    let a = match key_colon(&v, key) {
        Some(a) => a,
        None => return None,
    };
    let b = skip_ws_from(v.as_slice(), a);
    let rest = crate::text::sub_vec(v.as_slice(), b, v.len());
    assert(rest@ =~= v@.skip(b as int));
    if starts_with_chars(rest.as_slice(), chars_of("true").as_slice()) {
        Some(true)
    } else if starts_with_chars(rest.as_slice(), chars_of("false").as_slice()) {
        Some(false)
    } else {
        None
    }
}

} // verus!
