//! Character-sequence helpers shared by the parsers and formatters.
//!
//! Strings are modelled by their `Seq<char>` views. Every executable helper
//! here is proved against a spec function over those views.
use vstd::prelude::*;

verus! {

// ---------------------------------------------------------------------------
// Building and reading strings
// ---------------------------------------------------------------------------

/// `String::push`: appends one character.
#[verifier::external_body]
pub fn push_char(s: &mut String, c: char)
    ensures
        final(s)@ == old(s)@.push(c),
{
    s.push(c);
}

/// `str::to_lowercase`, the full Unicode lowercase mapping of a string.
pub uninterp spec fn lowercase(s: Seq<char>) -> Seq<char>;

/// `str::to_lowercase`: its result is the Unicode lowercase mapping of the
/// argument, a function of the argument alone; nothing more is claimed.
#[verifier::external_body]
pub fn to_lowercase(s: &str) -> (r: String)
    ensures
        r@ == lowercase(s@),
{
    s.to_lowercase()
}

/// The characters of a string, in order.
pub fn chars_of(s: &str) -> (v: Vec<char>)
    ensures
        v@ == s@,
{
    broadcast use vstd::string::group_string_axioms;

    let mut v: Vec<char> = Vec::new();
    for c in it: s.chars()
        invariant
            v@ == it.seq().take(it.index() as int),
            it.seq() == s@,
    {
        v.push(c);
    }
    v
}

/// A string holding exactly the given characters.
pub fn string_of(v: &[char]) -> (s: String)
    ensures
        s@ == v@,
{
    let mut s = String::new();
    let mut i: usize = 0;
    while i < v.len()
        invariant
            i <= v.len(),
            s@ == v@.take(i as int),
        decreases v.len() - i,
    {
        push_char(&mut s, v[i]);
        assert(v@.take(i as int + 1) == v@.take(i as int).push(v@[i as int]));
        i += 1;
    }
    assert(v@.take(v.len() as int) == v@);
    s
}

/// The characters `v[from..to]` as a string.
pub fn string_of_range(v: &[char], from: usize, to: usize) -> (s: String)
    requires
        from <= to <= v.len(),
    ensures
        s@ == v@.subrange(from as int, to as int),
{
    let mut s = String::new();
    let mut i: usize = from;
    while i < to
        invariant
            from <= i <= to <= v.len(),
            s@ == v@.subrange(from as int, i as int),
        decreases to - i,
    {
        push_char(&mut s, v[i]);
        assert(v@.subrange(from as int, i as int + 1) == v@.subrange(from as int, i as int).push(
            v@[i as int],
        ));
        i += 1;
    }
    s
}

/// Appends characters `v[from..to]` to `s`.
pub fn push_range(s: &mut String, v: &[char], from: usize, to: usize)
    requires
        from <= to <= v.len(),
    ensures
        final(s)@ == old(s)@ + v@.subrange(from as int, to as int),
{
    let mut i: usize = from;
    while i < to
        invariant
            from <= i <= to <= v.len(),
            s@ == old(s)@ + v@.subrange(from as int, i as int),
        decreases to - i,
    {
        push_char(s, v[i]);
        assert(v@.subrange(from as int, i as int + 1) == v@.subrange(from as int, i as int).push(
            v@[i as int],
        ));
        i += 1;
    }
}

/// Appends the characters of `t` to `s`.
pub fn push_str(s: &mut String, t: &str)
    ensures
        final(s)@ == old(s)@ + t@,
{
    let v = chars_of(t);
    push_range(s, &v, 0, v.len());
    assert(v@.subrange(0, v@.len() as int) =~= v@);
}

/// Whether two character slices are equal.
pub fn chars_eq(a: &[char], b: &[char]) -> (r: bool)
    ensures
        r == (a@ == b@),
{
    if a.len() != b.len() {
        return false;
    }
    let mut i: usize = 0;
    while i < a.len()
        invariant
            a.len() == b.len(),
            i <= a.len(),
            forall|k: int| 0 <= k < i ==> a@[k] == b@[k],
        decreases a.len() - i,
    {
        if a[i] != b[i] {
            return false;
        }
        i += 1;
    }
    assert(a@ =~= b@);
    true
}

/// Whether a string equals the given characters.
pub fn str_is(s: &str, lit: &str) -> (r: bool)
    ensures
        r == (s@ == lit@),
{
    let a = chars_of(s);
    let b = chars_of(lit);
    chars_eq(&a, &b)
}

// ---------------------------------------------------------------------------
// Whitespace and trimming
// ---------------------------------------------------------------------------

/// Unicode `White_Space`, the property behind `char::is_whitespace`.
pub open spec fn is_ws(c: char) -> bool {
    ||| ('\u{9}' <= c && c <= '\u{d}')
    ||| c == ' '
    ||| c == '\u{85}'
    ||| c == '\u{a0}'
    ||| c == '\u{1680}'
    ||| ('\u{2000}' <= c && c <= '\u{200a}')
    ||| c == '\u{2028}'
    ||| c == '\u{2029}'
    ||| c == '\u{202f}'
    ||| c == '\u{205f}'
    ||| c == '\u{3000}'
}

pub fn is_whitespace(c: char) -> (r: bool)
    ensures
        r == is_ws(c),
{
    ('\u{9}' <= c && c <= '\u{d}') || c == ' ' || c == '\u{85}' || c == '\u{a0}' || c == '\u{1680}'
        || ('\u{2000}' <= c && c <= '\u{200a}') || c == '\u{2028}' || c == '\u{2029}' || c
        == '\u{202f}' || c == '\u{205f}' || c == '\u{3000}'
}

/// Drops leading whitespace.
pub open spec fn trim_start_ws(s: Seq<char>) -> Seq<char>
    decreases s.len(),
{
    if s.len() > 0 && is_ws(s[0]) {
        trim_start_ws(s.drop_first())
    } else {
        s
    }
}

/// Drops trailing whitespace.
pub open spec fn trim_end_ws(s: Seq<char>) -> Seq<char>
    decreases s.len(),
{
    if s.len() > 0 && is_ws(s.last()) {
        trim_end_ws(s.drop_last())
    } else {
        s
    }
}

/// `str::trim`: drops whitespace at both ends.
pub open spec fn trim_ws(s: Seq<char>) -> Seq<char> {
    trim_end_ws(trim_start_ws(s))
}

/// Drops leading copies of `c`.
pub open spec fn trim_start_char(s: Seq<char>, c: char) -> Seq<char>
    decreases s.len(),
{
    if s.len() > 0 && s[0] == c {
        trim_start_char(s.drop_first(), c)
    } else {
        s
    }
}

/// Drops trailing copies of `c`.
pub open spec fn trim_end_char(s: Seq<char>, c: char) -> Seq<char>
    decreases s.len(),
{
    if s.len() > 0 && s.last() == c {
        trim_end_char(s.drop_last(), c)
    } else {
        s
    }
}

/// `str::trim_matches(c)` for a single character.
pub open spec fn trim_char(s: Seq<char>, c: char) -> Seq<char> {
    trim_end_char(trim_start_char(s, c), c)
}

proof fn lemma_trim_start_ws_skip(s: Seq<char>, i: int)
    requires
        0 <= i < s.len(),
        is_ws(s[i]),
    ensures
        trim_start_ws(s.skip(i)) == trim_start_ws(s.skip(i + 1)),
{
    assert(s.skip(i).drop_first() =~= s.skip(i + 1));
}

proof fn lemma_trim_end_ws_take(s: Seq<char>, j: int)
    requires
        0 < j <= s.len(),
        is_ws(s[j - 1]),
    ensures
        trim_end_ws(s.take(j)) == trim_end_ws(s.take(j - 1)),
{
    assert(s.take(j).drop_last() =~= s.take(j - 1));
}

proof fn lemma_trim_start_char_skip(s: Seq<char>, c: char, i: int)
    requires
        0 <= i < s.len(),
        s[i] == c,
    ensures
        trim_start_char(s.skip(i), c) == trim_start_char(s.skip(i + 1), c),
{
    assert(s.skip(i).drop_first() =~= s.skip(i + 1));
}

proof fn lemma_trim_end_char_take(s: Seq<char>, c: char, j: int)
    requires
        0 < j <= s.len(),
        s[j - 1] == c,
    ensures
        trim_end_char(s.take(j), c) == trim_end_char(s.take(j - 1), c),
{
    assert(s.take(j).drop_last() =~= s.take(j - 1));
}

pub proof fn lemma_trim_start_ws_first(s: Seq<char>)
    ensures
        trim_start_ws(s).len() > 0 ==> !is_ws(trim_start_ws(s)[0]),
        trim_start_ws(trim_start_ws(s)) == trim_start_ws(s),
    decreases s.len(),
{
    if s.len() > 0 && is_ws(s[0]) {
        lemma_trim_start_ws_first(s.drop_first());
    }
}

pub proof fn lemma_trim_end_ws_last(s: Seq<char>)
    ensures
        trim_end_ws(s).len() > 0 ==> !is_ws(trim_end_ws(s).last()),
        trim_end_ws(trim_end_ws(s)) == trim_end_ws(s),
        trim_end_ws(s).len() <= s.len(),
        trim_end_ws(s) == s.take(trim_end_ws(s).len() as int),
    decreases s.len(),
{
    if s.len() > 0 && is_ws(s.last()) {
        lemma_trim_end_ws_last(s.drop_last());
        let t = trim_end_ws(s.drop_last());
        assert(s.drop_last().take(t.len() as int) =~= s.take(t.len() as int));
    } else {
        assert(s.take(s.len() as int) =~= s);
    }
}

/// A trimmed string starts and ends with non-whitespace, so trimming again
/// changes nothing.
pub proof fn lemma_trim_ws_idempotent(s: Seq<char>)
    ensures
        trim_ws(trim_ws(s)) == trim_ws(s),
        trim_ws(s).len() > 0 ==> !is_ws(trim_ws(s)[0]) && !is_ws(trim_ws(s).last()),
{
    let a = trim_start_ws(s);
    lemma_trim_start_ws_first(s);
    lemma_trim_end_ws_last(a);
    let b = trim_end_ws(a);
    if b.len() > 0 {
        assert(b[0] == a[0]);
        assert(trim_start_ws(b) == b);
    } else {
        assert(trim_start_ws(b) == b);
    }
}

/// Index of the first non-whitespace character at or after `from`.
pub fn skip_ws_from(v: &[char], from: usize) -> (i: usize)
    requires
        from <= v.len(),
    ensures
        from <= i <= v.len(),
        trim_start_ws(v@.skip(from as int)) == v@.skip(i as int),
        forall|k: int| from <= k < i ==> is_ws(#[trigger] v@[k]),
        i < v.len() ==> !is_ws(v@[i as int]),
{
    let mut i = from;
    while i < v.len() && is_whitespace(v[i])
        invariant
            from <= i <= v.len(),
            trim_start_ws(v@.skip(from as int)) == trim_start_ws(v@.skip(i as int)),
            forall|k: int| from <= k < i ==> is_ws(#[trigger] v@[k]),
        decreases v.len() - i,
    {
        proof {
            lemma_trim_start_ws_skip(v@, i as int);
        }
        i += 1;
    }
    proof {
        if i < v.len() {
            assert(v@.skip(i as int)[0] == v@[i as int]);
        }
    }
    i
}

/// The bounds of `v` with surrounding whitespace removed.
pub fn trim_bounds(v: &[char]) -> (r: (usize, usize))
    ensures
        r.0 <= r.1 <= v.len(),
        v@.subrange(r.0 as int, r.1 as int) == trim_ws(v@),
        v@.skip(r.0 as int) == trim_start_ws(v@),
{
    let i = skip_ws_from(v, 0);
    assert(v@.skip(0) =~= v@);
    let mut j = v.len();
    assert(v@.skip(i as int) =~= v@.skip(i as int).take(j - i));
    while j > i && is_whitespace(v[j - 1])
        invariant
            i <= j <= v.len(),
            trim_ws(v@) == trim_end_ws(v@.skip(i as int).take(j - i)),
        decreases j,
    {
        proof {
            let t = v@.skip(i as int);
            assert(t[j - i - 1] == v@[j - 1]);
            lemma_trim_end_ws_take(t, j - i);
        }
        j -= 1;
    }
    proof {
        let t = v@.skip(i as int).take(j - i);
        assert(t =~= v@.subrange(i as int, j as int));
        if j > i {
            assert(t.last() == v@[j - 1]);
        }
    }
    (i, j)
}

/// `str::trim` on a string.
pub fn trim(s: &str) -> (r: String)
    ensures
        r@ == trim_ws(s@),
{
    let v = chars_of(s);
    let (a, b) = trim_bounds(&v);
    string_of_range(&v, a, b)
}

/// The bounds of `v[from..to]` with copies of `c` removed at both ends.
pub fn trim_char_bounds(v: &[char], from: usize, to: usize, c: char) -> (r: (usize, usize))
    requires
        from <= to <= v.len(),
    ensures
        from <= r.0 <= r.1 <= to,
        v@.subrange(r.0 as int, r.1 as int) == trim_char(v@.subrange(from as int, to as int), c),
        v@.subrange(r.0 as int, to as int) == trim_start_char(
            v@.subrange(from as int, to as int),
            c,
        ),
{
    let ghost s = v@.subrange(from as int, to as int);
    let mut i = from;
    assert(s.skip(0) =~= s);
    while i < to && v[i] == c
        invariant
            from <= i <= to <= v.len(),
            s == v@.subrange(from as int, to as int),
            trim_start_char(s, c) == trim_start_char(s.skip(i - from), c),
        decreases to - i,
    {
        proof {
            assert(s[i - from] == v@[i as int]);
            lemma_trim_start_char_skip(s, c, i - from);
        }
        i += 1;
    }
    proof {
        assert(s.skip(i - from) =~= v@.subrange(i as int, to as int));
        if i < to {
            assert(v@.subrange(i as int, to as int)[0] == v@[i as int]);
        }
    }
    let mut j = to;
    let ghost t = v@.subrange(i as int, to as int);
    assert(t =~= t.take(to - i));
    while j > i && v[j - 1] == c
        invariant
            from <= i <= j <= to <= v.len(),
            t == v@.subrange(i as int, to as int),
            trim_char(s, c) == trim_end_char(t.take(j - i), c),
        decreases j,
    {
        proof {
            assert(t[j - i - 1] == v@[j - 1]);
            lemma_trim_end_char_take(t, c, j - i);
        }
        j -= 1;
    }
    proof {
        assert(t.take(j - i) =~= v@.subrange(i as int, j as int));
        if j > i {
            assert(t.take(j - i).last() == v@[j - 1]);
        }
    }
    (i, j)
}

// ---------------------------------------------------------------------------
// Searching
// ---------------------------------------------------------------------------

/// `pat` occurs in `s` at position `k`.
pub open spec fn occurs_at(s: Seq<char>, pat: Seq<char>, k: int) -> bool {
    0 <= k && k + pat.len() <= s.len() && s.subrange(k, k + pat.len()) == pat
}

/// The first position at or after `k` where `pat` occurs in `s`.
pub open spec fn find_from(s: Seq<char>, pat: Seq<char>, k: int) -> Option<int>
    decreases s.len() + 1 - k,
{
    if k < 0 || k + pat.len() > s.len() {
        None
    } else if occurs_at(s, pat, k) {
        Some(k)
    } else {
        find_from(s, pat, k + 1)
    }
}

/// `str::find` with a string pattern, counted in characters.
pub open spec fn find_seq(s: Seq<char>, pat: Seq<char>) -> Option<int> {
    find_from(s, pat, 0)
}

/// `str::contains` with a string pattern.
pub open spec fn contains_seq(s: Seq<char>, pat: Seq<char>) -> bool {
    exists|k: int| occurs_at(s, pat, k)
}

/// The first position of `c` in `s` at or after `k`.
pub open spec fn find_char_from(s: Seq<char>, c: char, k: int) -> Option<int>
    decreases s.len() - k,
{
    if k < 0 || k >= s.len() {
        None
    } else if s[k] == c {
        Some(k)
    } else {
        find_char_from(s, c, k + 1)
    }
}

/// `str::find` with a character pattern.
pub open spec fn find_char(s: Seq<char>, c: char) -> Option<int> {
    find_char_from(s, c, 0)
}

pub proof fn lemma_find_from_props(s: Seq<char>, pat: Seq<char>, k: int)
    requires
        0 <= k,
    ensures
        match find_from(s, pat, k) {
            Some(p) => k <= p && occurs_at(s, pat, p) && forall|q: int|
                k <= q < p ==> !occurs_at(s, pat, q),
            None => forall|q: int| k <= q ==> !occurs_at(s, pat, q),
        },
    decreases s.len() + 1 - k,
{
    if k + pat.len() > s.len() {
    } else if occurs_at(s, pat, k) {
    } else {
        lemma_find_from_props(s, pat, k + 1);
    }
}

pub proof fn lemma_find_seq_props(s: Seq<char>, pat: Seq<char>)
    ensures
        match find_seq(s, pat) {
            Some(p) => 0 <= p && p + pat.len() <= s.len() && occurs_at(s, pat, p) && forall|
                q: int,
            |
                0 <= q < p ==> !occurs_at(s, pat, q),
            None => !contains_seq(s, pat),
        },
{
    lemma_find_from_props(s, pat, 0);
}

pub proof fn lemma_find_char_from_props(s: Seq<char>, c: char, k: int)
    requires
        0 <= k,
    ensures
        match find_char_from(s, c, k) {
            Some(p) => k <= p < s.len() && s[p] == c && forall|q: int| k <= q < p ==> s[q] != c,
            None => forall|q: int| k <= q < s.len() ==> s[q] != c,
        },
    decreases s.len() - k,
{
    if k >= s.len() {
    } else if s[k] == c {
    } else {
        lemma_find_char_from_props(s, c, k + 1);
    }
}

/// Searching from `k` equals searching the suffix from `j` at `k - j`.
pub proof fn lemma_find_from_shift(s: Seq<char>, pat: Seq<char>, j: int, k: int)
    requires
        0 <= j <= k,
        j <= s.len(),
    ensures
        find_from(s, pat, k) == match find_from(s.skip(j), pat, k - j) {
            Some(p) => Some(p + j),
            None => None::<int>,
        },
    decreases s.len() + 1 - k,
{
    let t = s.skip(j);
    if k + pat.len() > s.len() {
    } else {
        assert(occurs_at(s, pat, k) == occurs_at(t, pat, k - j)) by {
            assert(s.subrange(k, k + pat.len()) =~= t.subrange(k - j, k - j + pat.len()));
        }
        if !occurs_at(s, pat, k) {
            lemma_find_from_shift(s, pat, j, k + 1);
        }
    }
}

pub proof fn lemma_find_char_from_shift(s: Seq<char>, c: char, j: int, k: int)
    requires
        0 <= j <= k,
        j <= s.len(),
    ensures
        find_char_from(s, c, k) == match find_char_from(s.skip(j), c, k - j) {
            Some(p) => Some(p + j),
            None => None::<int>,
        },
    decreases s.len() - k,
{
    if k < s.len() {
        assert(s.skip(j)[k - j] == s[k]);
        if s[k] != c {
            lemma_find_char_from_shift(s, c, j, k + 1);
        }
    }
}

/// The characters `v[from..to]` as a vector.
pub fn sub_vec(v: &[char], from: usize, to: usize) -> (r: Vec<char>)
    requires
        from <= to <= v.len(),
    ensures
        r@ == v@.subrange(from as int, to as int),
{
    let mut r: Vec<char> = Vec::new();
    let mut i = from;
    while i < to
        invariant
            from <= i <= to <= v.len(),
            r@ == v@.subrange(from as int, i as int),
        decreases to - i,
    {
        r.push(v[i]);
        assert(v@.subrange(from as int, i as int + 1) =~= v@.subrange(from as int, i as int).push(
            v@[i as int],
        ));
        i += 1;
    }
    r
}

/// Whether `pat` occurs in `s` at `k`.
pub fn matches_at(s: &[char], pat: &[char], k: usize) -> (r: bool)
    ensures
        r == occurs_at(s@, pat@, k as int),
{
    if pat.len() > s.len() || k > s.len() - pat.len() {
        return false;
    }
    let mut i: usize = 0;
    while i < pat.len()
        invariant
            k + pat.len() <= s.len(),
            i <= pat.len(),
            forall|q: int| 0 <= q < i ==> s@[k + q] == pat@[q],
        decreases pat.len() - i,
    {
        if s[k + i] != pat[i] {
            assert(s@.subrange(k as int, k + pat.len())[i as int] != pat@[i as int]);
            return false;
        }
        i += 1;
    }
    assert(s@.subrange(k as int, k + pat.len()) =~= pat@);
    true
}

/// `str::find` from position `from`, on character slices.
pub fn find_in(s: &[char], pat: &[char], from: usize) -> (r: Option<usize>)
    requires
        from <= s.len(),
    ensures
        r matches Some(p) ==> find_from(s@, pat@, from as int) == Some(p as int),
        r is None ==> find_from(s@, pat@, from as int) is None,
{
    if pat.len() > s.len() || from > s.len() - pat.len() {
        return None;
    }
    let last = s.len() - pat.len();
    let mut k = from;
    loop
        invariant
            from <= k <= last,
            last + pat.len() == s.len(),
            find_from(s@, pat@, from as int) == find_from(s@, pat@, k as int),
        decreases last - k,
    {
        if matches_at(s, pat, k) {
            return Some(k);
        }
        if k == last {
            assert(find_from(s@, pat@, k as int + 1) is None);
            return None;
        }
        k += 1;
    }
}

/// `str::contains` on character slices.
pub fn contains_chars(s: &[char], pat: &[char]) -> (r: bool)
    ensures
        r == contains_seq(s@, pat@),
{
    let f = find_in(s, pat, 0);
    proof {
        lemma_find_seq_props(s@, pat@);
    }
    f.is_some()
}

/// The first position of `c` at or after `from`.
pub fn find_char_in(s: &[char], c: char, from: usize) -> (r: Option<usize>)
    requires
        from <= s.len(),
    ensures
        r matches Some(p) ==> find_char_from(s@, c, from as int) == Some(p as int),
        r is None ==> find_char_from(s@, c, from as int) is None,
{
    let mut k = from;
    while k < s.len()
        invariant
            from <= k <= s.len(),
            find_char_from(s@, c, from as int) == find_char_from(s@, c, k as int),
        decreases s.len() - k,
    {
        if s[k] == c {
            return Some(k);
        }
        k += 1;
    }
    None
}

/// Whether `c` occurs in `s`.
pub fn has_char(s: &[char], c: char) -> (r: bool)
    ensures
        r == s@.contains(c),
{
    let mut k: usize = 0;
    while k < s.len()
        invariant
            k <= s.len(),
            forall|q: int| 0 <= q < k ==> s@[q] != c,
        decreases s.len() - k,
    {
        if s[k] == c {
            assert(s@[k as int] == c);
            return true;
        }
        k += 1;
    }
    false
}

/// `s` starts with `p`.
pub open spec fn starts_with(s: Seq<char>, p: Seq<char>) -> bool {
    p.len() <= s.len() && s.take(p.len() as int) == p
}

/// `s` ends with `p`.
pub open spec fn ends_with(s: Seq<char>, p: Seq<char>) -> bool {
    p.len() <= s.len() && s.skip(s.len() - p.len()) == p
}

pub fn starts_with_chars(s: &[char], p: &[char]) -> (r: bool)
    ensures
        r == starts_with(s@, p@),
{
    let r = matches_at(s, p, 0);
    proof {
        if p.len() <= s.len() {
            assert(s@.subrange(0, p.len() as int) =~= s@.take(p.len() as int));
        }
    }
    r
}

pub fn ends_with_chars(s: &[char], p: &[char]) -> (r: bool)
    ensures
        r == ends_with(s@, p@),
{
    if p.len() > s.len() {
        return false;
    }
    let r = matches_at(s, p, s.len() - p.len());
    assert(s@.subrange(s.len() - p.len(), s.len() as int) =~= s@.skip(s.len() - p.len()));
    r
}

// ---------------------------------------------------------------------------
// Splitting
// ---------------------------------------------------------------------------

/// `str::split(c)`: the pieces between occurrences of `c`, empty ones kept.
pub open spec fn split_char(s: Seq<char>, c: char) -> Seq<Seq<char>>
    decreases s.len(),
{
    match find_char(s, c) {
        Some(i) => if 0 <= i < s.len() {
            seq![s.take(i)] + split_char(s.skip(i + 1), c)
        } else {
            seq![s]
        },
        None => seq![s],
    }
}

/// `str::splitn(n, c)`: at most `n` pieces, the last holding the rest.
pub open spec fn splitn_char(s: Seq<char>, c: char, n: nat) -> Seq<Seq<char>>
    decreases n,
{
    if n <= 1 {
        seq![s]
    } else {
        match find_char(s, c) {
            Some(i) => if 0 <= i < s.len() {
                seq![s.take(i)] + splitn_char(s.skip(i + 1), c, (n - 1) as nat)
            } else {
                seq![s]
            },
            None => seq![s],
        }
    }
}

/// The pieces of `str::splitn(n, c)`.
pub fn splitn_pieces(s: &[char], c: char, n: usize) -> (r: Vec<Vec<char>>)
    requires
        n >= 1,
    ensures
        r@.map_values(|p: Vec<char>| p@) == splitn_char(s@, c, n as nat),
{
    let mut r: Vec<Vec<char>> = Vec::new();
    let mut start: usize = 0;
    let mut k: usize = n;
    assert(s@.skip(0) =~= s@);
    while k > 1
        invariant
            start <= s.len(),
            1 <= k <= n,
            r@.map_values(|p: Vec<char>| p@) + splitn_char(s@.skip(start as int), c, k as nat)
                == splitn_char(s@, c, n as nat),
        decreases k,
    {
        let ghost t = s@.skip(start as int);
        proof {
            lemma_find_char_from_shift(s@, c, start as int, start as int);
            assert(t.skip(0) =~= t);
        }
        match find_char_in(s, c, start) {
            Some(p) => {
                proof {
                    lemma_find_char_from_props(s@, c, start as int);
                    lemma_find_char_from_props(t, c, 0);
                    assert(t.take(p - start) =~= s@.subrange(start as int, p as int));
                    assert(t.skip(p - start + 1) =~= s@.skip(p + 1));
                }
                let piece = sub_vec(s, start, p);
                let ghost before = r@.map_values(|q: Vec<char>| q@);
                r.push(piece);
                assert(r@.map_values(|q: Vec<char>| q@) =~= before.push(s@.subrange(start as int, p as int)));
                start = p + 1;
                k -= 1;
            },
            None => {
                let piece = sub_vec(s, start, s.len());
                let ghost before = r@.map_values(|q: Vec<char>| q@);
                r.push(piece);
                assert(s@.subrange(start as int, s.len() as int) =~= t);
                assert(r@.map_values(|q: Vec<char>| q@) =~= before + seq![t]);
                return r;
            },
        }
    }
    let ghost t = s@.skip(start as int);
    let piece = sub_vec(s, start, s.len());
    let ghost before = r@.map_values(|q: Vec<char>| q@);
    r.push(piece);
    assert(s@.subrange(start as int, s.len() as int) =~= t);
    assert(r@.map_values(|q: Vec<char>| q@) =~= before + seq![t]);
    r
}

/// `str::lines`: pieces split at `'\n'`, each losing one `'\r'` that stood
/// right before its `'\n'`; a final empty piece is not a line.
pub open spec fn lines_of(s: Seq<char>) -> Seq<Seq<char>>
    decreases s.len(),
{
    if s.len() == 0 {
        seq![]
    } else {
        match find_char(s, '\n') {
            Some(i) => if 0 <= i < s.len() {
                seq![strip_cr(s.take(i))] + lines_of(s.skip(i + 1))
            } else {
                seq![s]
            },
            None => seq![s],
        }
    }
}

/// Drops one trailing `'\r'`.
pub open spec fn strip_cr(s: Seq<char>) -> Seq<char> {
    if s.len() > 0 && s.last() == '\r' {
        s.drop_last()
    } else {
        s
    }
}

/// `str::split_whitespace`: the maximal runs of non-whitespace characters.
pub open spec fn words(s: Seq<char>) -> Seq<Seq<char>>
    decreases s.len(),
{
    let t = trim_start_ws(s);
    if t.len() == 0 {
        seq![]
    } else {
        let n = word_len(t);
        if 0 < n <= t.len() && t.len() < s.len() + 1 {
            seq![t.take(n)] + words(t.skip(n))
        } else {
            seq![]
        }
    }
}

/// Length of the leading run of non-whitespace characters.
pub open spec fn word_len(s: Seq<char>) -> int
    decreases s.len(),
{
    if s.len() > 0 && !is_ws(s[0]) {
        1 + word_len(s.drop_first())
    } else {
        0
    }
}

pub proof fn lemma_trim_start_ws_len(s: Seq<char>)
    ensures
        trim_start_ws(s).len() <= s.len(),
        exists|k: int| 0 <= k <= s.len() && trim_start_ws(s) == s.skip(k),
    decreases s.len(),
{
    if s.len() > 0 && is_ws(s[0]) {
        lemma_trim_start_ws_len(s.drop_first());
        let k = choose|k: int|
            0 <= k <= s.drop_first().len() && trim_start_ws(s.drop_first()) == s.drop_first().skip(
                k,
            );
        assert(s.drop_first().skip(k) =~= s.skip(k + 1));
    } else {
        assert(s.skip(0) =~= s);
    }
}

pub proof fn lemma_word_len_bounds(s: Seq<char>)
    ensures
        0 <= word_len(s) <= s.len(),
        forall|k: int| 0 <= k < word_len(s) ==> !is_ws(#[trigger] s[k]),
        word_len(s) < s.len() ==> is_ws(s[word_len(s)]),
    decreases s.len(),
{
    if s.len() > 0 && !is_ws(s[0]) {
        lemma_word_len_bounds(s.drop_first());
        assert forall|k: int| 0 <= k < word_len(s) implies !is_ws(#[trigger] s[k]) by {
            if k > 0 {
                assert(s[k] == s.drop_first()[k - 1]);
            }
        }
        if word_len(s) < s.len() {
            assert(s[word_len(s)] == s.drop_first()[word_len(s) - 1]);
        }
    }
}

pub proof fn lemma_word_len_skip(s: Seq<char>, i: int, j: int)
    requires
        0 <= i <= j <= s.len(),
        forall|k: int| i <= k < j ==> !is_ws(#[trigger] s[k]),
        j < s.len() ==> is_ws(s[j]),
    ensures
        word_len(s.skip(i)) == j - i,
    decreases j - i,
{
    if i < j {
        assert(s.skip(i)[0] == s[i]);
        assert(s.skip(i).drop_first() =~= s.skip(i + 1));
        lemma_word_len_skip(s, i + 1, j);
    } else {
        if j < s.len() {
            assert(s.skip(i)[0] == s[j]);
        }
    }
}

pub proof fn lemma_split_char_unfold(s: Seq<char>, c: char, i: int)
    requires
        0 <= i < s.len(),
        s[i] == c,
        forall|q: int| 0 <= q < i ==> s[q] != c,
    ensures
        split_char(s, c) == seq![s.take(i)] + split_char(s.skip(i + 1), c),
{
    lemma_find_char_from_props(s, c, 0);
    let f = find_char(s, c);
    if f is None {
        assert(s[i] != c);
    }
    let p = f->0;
    if p < i {
        assert(s[p] != c);
    }
    if p > i {
        assert(s[i] != c);
    }
}

pub proof fn lemma_split_char_none(s: Seq<char>, c: char)
    requires
        forall|q: int| 0 <= q < s.len() ==> s[q] != c,
    ensures
        split_char(s, c) == seq![s],
{
    lemma_find_char_from_props(s, c, 0);
    if find_char(s, c) is Some {
        let p = find_char(s, c)->0;
        assert(s[p] == c);
    }
}

pub proof fn lemma_lines_unfold(s: Seq<char>, i: int)
    requires
        0 <= i < s.len(),
        s[i] == '\n',
        forall|q: int| 0 <= q < i ==> s[q] != '\n',
    ensures
        lines_of(s) == seq![strip_cr(s.take(i))] + lines_of(s.skip(i + 1)),
{
    lemma_find_char_from_props(s, '\n', 0);
    let f = find_char(s, '\n');
    if f is None {
        assert(s[i] != '\n');
    }
    let p = f->0;
    if p < i {
        assert(s[p] != '\n');
    }
    if p > i {
        assert(s[i] != '\n');
    }
}

pub proof fn lemma_lines_last(s: Seq<char>)
    requires
        s.len() > 0,
        forall|q: int| 0 <= q < s.len() ==> s[q] != '\n',
    ensures
        lines_of(s) == seq![s],
{
    lemma_find_char_from_props(s, '\n', 0);
    if find_char(s, '\n') is Some {
        let p = find_char(s, '\n')->0;
        assert(s[p] == '\n');
    }
}

/// The bounds of the pieces of `v` between occurrences of `c`
/// (`str::split`).
pub fn split_bounds(v: &[char], c: char) -> (r: Vec<(usize, usize)>)
    ensures
        r@.len() == split_char(v@, c).len(),
        forall|k: int|
            0 <= k < r@.len() ==> {
                &&& (#[trigger] r@[k]).0 <= r@[k].1 <= v@.len()
                &&& v@.subrange(r@[k].0 as int, r@[k].1 as int) == split_char(v@, c)[k]
            },
{
    let mut r: Vec<(usize, usize)> = Vec::new();
    let mut start: usize = 0;
    let mut i: usize = 0;
    let ghost done: Seq<Seq<char>> = seq![];
    assert(v@.skip(0) =~= v@);
    while i < v.len()
        invariant
            start <= i <= v.len(),
            r@.len() == done.len(),
            split_char(v@, c) == done + split_char(v@.skip(start as int), c),
            forall|q: int| start <= q < i ==> v@[q] != c,
            forall|k: int|
                0 <= k < r@.len() ==> {
                    &&& (#[trigger] r@[k]).0 <= r@[k].1 <= v@.len()
                    &&& v@.subrange(r@[k].0 as int, r@[k].1 as int) == done[k]
                },
        decreases v.len() - i,
    {
        if v[i] == c {
            let ghost t = v@.skip(start as int);
            proof {
                assert forall|q: int| 0 <= q < i - start implies t[q] != c by {
                    assert(t[q] == v@[start + q]);
                }
                assert(t[i - start] == v@[i as int]);
                lemma_split_char_unfold(t, c, i - start);
                assert(t.skip(i - start + 1) =~= v@.skip(i + 1));
                assert(t.take(i - start) =~= v@.subrange(start as int, i as int));
                done = done.push(v@.subrange(start as int, i as int));
            }
            r.push((start, i));
            start = i + 1;
        }
        i += 1;
    }
    proof {
        let t = v@.skip(start as int);
        assert forall|q: int| 0 <= q < t.len() implies t[q] != c by {
            assert(t[q] == v@[start + q]);
        }
        lemma_split_char_none(t, c);
        assert(t =~= v@.subrange(start as int, v.len() as int));
        done = done.push(t);
    }
    r.push((start, v.len()));
    assert(split_char(v@, c) =~= done);
    r
}

/// The bounds of the whitespace-separated words of `v`.
pub fn word_bounds(v: &[char]) -> (r: Vec<(usize, usize)>)
    ensures
        r@.len() == words(v@).len(),
        forall|k: int|
            0 <= k < r@.len() ==> {
                &&& (#[trigger] r@[k]).0 <= r@[k].1 <= v@.len()
                &&& v@.subrange(r@[k].0 as int, r@[k].1 as int) == words(v@)[k]
            },
{
    let mut r: Vec<(usize, usize)> = Vec::new();
    let mut pos: usize = 0;
    let ghost done: Seq<Seq<char>> = seq![];
    assert(v@.skip(0) =~= v@);
    loop
        invariant
            pos <= v.len(),
            r@.len() == done.len(),
            words(v@) == done + words(v@.skip(pos as int)),
            forall|k: int|
                0 <= k < r@.len() ==> {
                    &&& (#[trigger] r@[k]).0 <= r@[k].1 <= v@.len()
                    &&& v@.subrange(r@[k].0 as int, r@[k].1 as int) == done[k]
                },
        decreases v.len() - pos,
    {
        let i = skip_ws_from(v, pos);
        if i == v.len() {
            assert(v@.skip(i as int).len() == 0);
            assert(words(v@.skip(pos as int)) == Seq::<Seq<char>>::empty());
            assert(done + seq![] =~= done);
            return r;
        }
        let mut j = i;
        while j < v.len() && !is_whitespace(v[j])
            invariant
                i <= j <= v.len(),
                forall|k: int| i <= k < j ==> !is_ws(#[trigger] v@[k]),
            decreases v.len() - j,
        {
            j += 1;
        }
        proof {
            let t = v@.skip(i as int);
            lemma_word_len_skip(v@, i as int, j as int);
            assert(t.take(j - i) =~= v@.subrange(i as int, j as int));
            assert(t.skip(j - i) =~= v@.skip(j as int));
            assert(words(v@.skip(pos as int)) == seq![t.take(j - i)] + words(t.skip(j - i)));
            done = done.push(v@.subrange(i as int, j as int));
        }
        r.push((i, j));
        pos = j;
    }
}

/// The line bounds of `v`: `(start, end)` pairs whose ranges are `str::lines`.
pub fn line_bounds(v: &[char]) -> (r: Vec<(usize, usize)>)
    ensures
        r@.len() == lines_of(v@).len(),
        forall|k: int|
            0 <= k < r@.len() ==> {
                &&& (#[trigger] r@[k]).0 <= r@[k].1 <= v@.len()
                &&& v@.subrange(r@[k].0 as int, r@[k].1 as int) == lines_of(v@)[k]
            },
{
    let mut r: Vec<(usize, usize)> = Vec::new();
    let mut start: usize = 0;
    let mut i: usize = 0;
    let ghost done: Seq<Seq<char>> = seq![];
    assert(v@.skip(0) =~= v@);
    while i < v.len()
        invariant
            start <= i <= v.len(),
            r@.len() == done.len(),
            lines_of(v@) == done + lines_of(v@.skip(start as int)),
            forall|q: int| start <= q < i ==> v@[q] != '\n',
            forall|k: int|
                0 <= k < r@.len() ==> {
                    &&& (#[trigger] r@[k]).0 <= r@[k].1 <= v@.len()
                    &&& v@.subrange(r@[k].0 as int, r@[k].1 as int) == done[k]
                },
        decreases v.len() - i,
    {
        if v[i] == '\n' {
            let ghost t = v@.skip(start as int);
            proof {
                assert forall|q: int| 0 <= q < i - start implies t[q] != '\n' by {
                    assert(t[q] == v@[start + q]);
                }
                assert(t[i - start] == v@[i as int]);
                lemma_lines_unfold(t, i - start);
                assert(t.skip(i - start + 1) =~= v@.skip(i + 1));
                assert(t.take(i - start) =~= v@.subrange(start as int, i as int));
            }
            let mut end = i;
            if end > start && v[end - 1] == '\r' {
                end = end - 1;
            }
            proof {
                let piece = v@.subrange(start as int, i as int);
                assert(strip_cr(piece) =~= v@.subrange(start as int, end as int));
            }
            r.push((start, end));
            proof {
                done = done.push(strip_cr(v@.subrange(start as int, i as int)));
                assert(lines_of(v@) == done + lines_of(v@.skip(i + 1)));
            }
            start = i + 1;
        }
        i += 1;
    }
    if start < v.len() {
        proof {
            let t = v@.skip(start as int);
            assert forall|q: int| 0 <= q < t.len() implies t[q] != '\n' by {
                assert(t[q] == v@[start + q]);
            }
            lemma_lines_last(t);
            assert(t =~= v@.subrange(start as int, v.len() as int));
        }
        r.push((start, v.len()));
        proof {
            done = done.push(v@.skip(start as int));
        }
    } else {
        assert(v@.skip(start as int).len() == 0);
    }
    assert(lines_of(v@) =~= done);
    r
}

// ---------------------------------------------------------------------------
// Decimal numbers
// ---------------------------------------------------------------------------

pub open spec fn digit_char(d: nat) -> char {
    if d == 0 {
        '0'
    } else if d == 1 {
        '1'
    } else if d == 2 {
        '2'
    } else if d == 3 {
        '3'
    } else if d == 4 {
        '4'
    } else if d == 5 {
        '5'
    } else if d == 6 {
        '6'
    } else if d == 7 {
        '7'
    } else if d == 8 {
        '8'
    } else {
        '9'
    }
}

/// The decimal digits of `n`, as `{}` formats an unsigned integer.
pub open spec fn decimal(n: nat) -> Seq<char>
    decreases n,
{
    if n < 10 {
        seq![digit_char(n)]
    } else {
        decimal(n / 10).push(digit_char(n % 10))
    }
}

fn digit(d: u64) -> (c: char)
    requires
        d < 10,
    ensures
        c == digit_char(d as nat),
{
    if d == 0 {
        '0'
    } else if d == 1 {
        '1'
    } else if d == 2 {
        '2'
    } else if d == 3 {
        '3'
    } else if d == 4 {
        '4'
    } else if d == 5 {
        '5'
    } else if d == 6 {
        '6'
    } else if d == 7 {
        '7'
    } else if d == 8 {
        '8'
    } else {
        '9'
    }
}

/// Appends the decimal digits of `n` to `s`.
pub fn push_decimal(s: &mut String, n: u64)
    ensures
        final(s)@ == old(s)@ + decimal(n as nat),
    decreases n,
{
    if n < 10 {
        push_char(s, digit(n));
        assert(old(s)@.push(digit_char(n as nat)) =~= old(s)@ + seq![digit_char(n as nat)]);
    } else {
        push_decimal(s, n / 10);
        push_char(s, digit(n % 10));
        assert(old(s)@ + decimal((n / 10) as nat) + seq![digit_char((n % 10) as nat)] =~= old(
            s,
        )@ + decimal(n as nat));
    }
}

/// The decimal digits of `n` as a string.
pub fn decimal_string(n: u64) -> (s: String)
    ensures
        s@ == decimal(n as nat),
{
    let mut s = String::new();
    push_decimal(&mut s, n);
    assert(Seq::<char>::empty() + decimal(n as nat) =~= decimal(n as nat));
    s
}

pub open spec fn is_digit(c: char) -> bool {
    '0' <= c && c <= '9'
}

pub open spec fn digit_value(c: char) -> nat {
    ((c as u32) - ('0' as u32)) as nat
}

/// The number written by the decimal digits `s`, most significant first.
pub open spec fn digits_value(s: Seq<char>) -> nat
    decreases s.len(),
{
    if s.len() == 0 {
        0
    } else {
        digits_value(s.drop_last()) * 10 + digit_value(s.last())
    }
}

/// `u64::from_str` on a string of plain decimal digits: `None` when empty or
/// when the value does not fit.
pub open spec fn parse_digits_u64(s: Seq<char>) -> Option<u64> {
    if s.len() > 0 && (forall|k: int| 0 <= k < s.len() ==> is_digit(#[trigger] s[k]))
        && digits_value(s) <= u64::MAX {
        Some(digits_value(s) as u64)
    } else {
        None
    }
}

proof fn lemma_digits_value_monotone(s: Seq<char>, k: int)
    requires
        0 <= k <= s.len(),
        forall|q: int| 0 <= q < s.len() ==> is_digit(#[trigger] s[q]),
    ensures
        digits_value(s.take(k)) <= digits_value(s),
    decreases s.len() - k,
{
    if k < s.len() {
        lemma_digits_value_monotone(s, k + 1);
        assert(s.take(k + 1).drop_last() =~= s.take(k));
    } else {
        assert(s.take(k) =~= s);
    }
}

/// Parses `v[from..to]` as plain decimal digits into a `u64`.
pub fn parse_digits(v: &[char], from: usize, to: usize) -> (r: Option<u64>)
    requires
        from <= to <= v.len(),
    ensures
        r == parse_digits_u64(v@.subrange(from as int, to as int)),
{
    let ghost s = v@.subrange(from as int, to as int);
    if from == to {
        return None;
    }
    let mut k = from;
    while k < to
        invariant
            from <= k <= to <= v.len(),
            s == v@.subrange(from as int, to as int),
            forall|q: int| 0 <= q < k - from ==> is_digit(#[trigger] s[q]),
        decreases to - k,
    {
        if !('0' <= v[k] && v[k] <= '9') {
            assert(!is_digit(s[k - from]));
            return None;
        }
        k += 1;
    }
    let mut acc: u64 = 0;
    let mut i = from;
    assert(s.take(0) =~= Seq::<char>::empty());
    while i < to
        invariant
            from <= i <= to <= v.len(),
            s == v@.subrange(from as int, to as int),
            forall|q: int| 0 <= q < s.len() ==> is_digit(#[trigger] s[q]),
            acc == digits_value(s.take(i - from)),
        decreases to - i,
    {
        assert(s[i - from] == v@[i as int]);
        let d = (v[i] as u32 - '0' as u32) as u64;
        assert(s.take(i - from + 1).drop_last() =~= s.take(i - from));
        if acc > (u64::MAX - d) / 10 {
            proof {
                lemma_digits_value_monotone(s, i - from + 1);
                assert(digits_value(s.take(i - from + 1)) == acc * 10 + d);
                assert(acc * 10 + d > u64::MAX) by (nonlinear_arith)
                    requires
                        acc > (u64::MAX - d) / 10,
                        d < 10,
                ;
            }
            return None;
        }
        assert(acc * 10 + d <= u64::MAX) by (nonlinear_arith)
            requires
                acc <= (u64::MAX - d) / 10,
                d < 10,
        ;
        acc = acc * 10 + d;
        i += 1;
    }
    assert(s.take(to - from) =~= s);
    Some(acc)
}

/// Whether `d` is a non-empty run of decimal digits.
pub open spec fn all_digits(d: Seq<char>) -> bool {
    d.len() > 0 && forall|k: int| 0 <= k < d.len() ==> is_digit(#[trigger] d[k])
}

/// `i64::from_str`: an optional sign, then plain decimal digits, in range.
pub open spec fn parse_i64_spec(s: Seq<char>) -> Option<i64> {
    if s.len() > 0 && s[0] == '-' {
        let d = s.drop_first();
        if all_digits(d) && digits_value(d) <= 0x8000_0000_0000_0000 {
            Some((0 - digits_value(d)) as i64)
        } else {
            None
        }
    } else {
        let d = if s.len() > 0 && s[0] == '+' {
            s.drop_first()
        } else {
            s
        };
        if all_digits(d) && digits_value(d) <= i64::MAX {
            Some(digits_value(d) as i64)
        } else {
            None
        }
    }
}

/// Parses `v[from..to]` as an `i64`.
pub fn parse_i64(v: &[char], from: usize, to: usize) -> (r: Option<i64>)
    requires
        from <= to <= v.len(),
    ensures
        r == parse_i64_spec(v@.subrange(from as int, to as int)),
{
    let ghost s = v@.subrange(from as int, to as int);
    if from < to && v[from] == '-' {
        assert(s.drop_first() =~= v@.subrange(from + 1, to as int));
        match parse_digits(v, from + 1, to) {
            Some(x) => {
                if x <= 0x8000_0000_0000_0000 {
                    let d = if x == 0x8000_0000_0000_0000 {
                        i64::MIN
                    } else {
                        -(x as i64)
                    };
                    assert(d == (0 - x) as i64);
                    assert(s[0] == '-');
                    Some(d)
                } else {
                    None
                }
            },
            None => None,
        }
    } else {
        let start = if from < to && v[from] == '+' {
            from + 1
        } else {
            from
        };
        assert(from < to && v@[from as int] == '+' ==> s.drop_first() =~= v@.subrange(
            start as int,
            to as int,
        ));
        assert(!(from < to && v@[from as int] == '+') ==> s =~= v@.subrange(start as int, to as int));
        assert(!(s.len() > 0 && s[0] == '-'));
        match parse_digits(v, start, to) {
            Some(x) => {
                if x <= 0x7fff_ffff_ffff_ffff {
                    Some(x as i64)
                } else {
                    None
                }
            },
            None => None,
        }
    }
}

} // verus!
