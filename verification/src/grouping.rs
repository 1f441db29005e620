//! What the sidebar's grouping keeps of the windows it is given.
//!
//! `grouped_windows_with_sections` returns the groups `grouped_spec`
//! describes; this module proves that those groups show every window once
//! and in the right group, order folder groups case-insensitively with
//! `Other` last, and put the `herdr` group first; and that stepping through
//! the sidebar order with `--select` visits each window and can be undone.
use vstd::prelude::*;

use crate::model::{
    adjacent_spec, flatten, folder_groups, group_names, group_position_from, grouped_spec,
    insert_sorted, is_assigned, lemma_window_with_id_from, lex_less, members_named, pin_herdr,
    position_of, section_groups, section_members, sidebar_order_spec, sort_by_lowercase,
    unassigned_upto, window_with_id, without_name, Direction, Window,
};
use crate::sections::{ids_unique, lemma_push_contains, lemma_push_unique, SectionView};
use crate::text::lowercase;

verus! {

// ---------------------------------------------------------------------------
// Counting
// ---------------------------------------------------------------------------

/// How many times `x` occurs in `s`.
pub open spec fn count_of(s: Seq<int>, x: int) -> nat
    decreases s.len(),
{
    if s.len() == 0 {
        0
    } else {
        count_of(s.drop_last(), x) + if s.last() == x {
            1nat
        } else {
            0nat
        }
    }
}

proof fn lemma_count_concat(a: Seq<int>, b: Seq<int>, x: int)
    ensures
        count_of(a + b, x) == count_of(a, x) + count_of(b, x),
    decreases b.len(),
{
    if b.len() == 0 {
        assert(a + b =~= a);
    } else {
        assert((a + b).drop_last() =~= a + b.drop_last());
        assert((a + b).last() == b.last());
        lemma_count_concat(a, b.drop_last(), x);
    }
}

proof fn lemma_count_push(s: Seq<int>, v: int, x: int)
    ensures
        count_of(s.push(v), x) == count_of(s, x) + if v == x {
            1nat
        } else {
            0nat
        },
{
    assert(s.push(v).drop_last() =~= s);
}

proof fn lemma_groups_concat(a: Seq<(Seq<char>, Seq<int>)>, b: Seq<(Seq<char>, Seq<int>)>)
    ensures
        flatten(a + b) == flatten(a) + flatten(b),
    decreases b.len(),
{
    if b.len() == 0 {
        assert(a + b =~= a);
        assert(flatten(a) + flatten(b) =~= flatten(a));
    } else {
        assert((a + b).drop_last() =~= a + b.drop_last());
        assert((a + b).last() == b.last());
        lemma_groups_concat(a, b.drop_last());
        assert(flatten(a) + flatten(b.drop_last()) + b.last().1 =~= flatten(a) + (flatten(
            b.drop_last(),
        ) + b.last().1));
    }
}

proof fn lemma_groups_push(a: Seq<(Seq<char>, Seq<int>)>, g: (Seq<char>, Seq<int>))
    ensures
        flatten(a.push(g)) == flatten(a) + g.1,
{
    assert(a.push(g).drop_last() =~= a);
}

proof fn lemma_drop_last_unique<A>(s: Seq<A>)
    requires
        s.len() > 0,
        s.no_duplicates(),
    ensures
        s.drop_last().no_duplicates(),
{
    let d = s.drop_last();
    assert forall|i: int, j: int| 0 <= i < d.len() && 0 <= j < d.len() && i != j implies d[i] != d[j] by {
        assert(d[i] == s[i] && d[j] == s[j]);
    }
}

/// The last element of a list without duplicates is not among the others.
proof fn lemma_last_not_before<A>(s: Seq<A>)
    requires
        s.len() > 0,
        s.no_duplicates(),
    ensures
        !s.drop_last().contains(s.last()),
{
    if s.drop_last().contains(s.last()) {
        let i = choose|i: int| 0 <= i < s.drop_last().len() && s.drop_last()[i] == s.last();
        assert(s[i] == s[s.len() - 1]);
    }
}

// ---------------------------------------------------------------------------
// Moving the herdr group
// ---------------------------------------------------------------------------

proof fn lemma_group_position_from(gs: Seq<(Seq<char>, Seq<int>)>, name: Seq<char>, k: int)
    requires
        0 <= k,
    ensures
        match group_position_from(gs, name, k) {
            Some(p) => k <= p < gs.len() && gs[p].0 == name,
            None => forall|q: int| k <= q < gs.len() ==> gs[q].0 != name,
        },
    decreases gs.len() - k,
{
    if k < gs.len() && gs[k].0 != name {
        lemma_group_position_from(gs, name, k + 1);
    }
}

proof fn lemma_pin_herdr_count(gs: Seq<(Seq<char>, Seq<int>)>, x: int)
    ensures
        count_of(flatten(pin_herdr(gs)), x) == count_of(flatten(gs), x),
{
    lemma_group_position_from(gs, "herdr"@, 0);
    if let Some(p) = group_position_from(gs, "herdr"@, 0) {
        let a = gs.take(p);
        let b = gs.skip(p + 1);
        let one = seq![gs[p]];
        assert(gs =~= a + one + b);
        assert(gs.remove(p) =~= a + b);
        assert(one.drop_last() =~= Seq::<(Seq<char>, Seq<int>)>::empty());
        assert(flatten(one.drop_last()) =~= Seq::<int>::empty());
        assert(flatten(one) =~= gs[p].1);
        lemma_groups_concat(a + one, b);
        lemma_groups_concat(a, one);
        lemma_groups_concat(a, b);
        lemma_groups_concat(one, a + b);
        lemma_count_concat(flatten(a) + flatten(one), flatten(b), x);
        lemma_count_concat(flatten(a), flatten(one), x);
        lemma_count_concat(flatten(a), flatten(b), x);
        lemma_count_concat(flatten(one), flatten(a + b), x);
    }
}

// ---------------------------------------------------------------------------
// Custom sections
// ---------------------------------------------------------------------------

/// No two windows share a non-empty tmux window id.
pub open spec fn ids_distinct(ws: Seq<Window>) -> bool {
    forall|i: int, j: int|
        0 <= i < ws.len() && 0 <= j < ws.len() && i != j && ws[i].window_id@.len() > 0
            ==> ws[i].window_id@ != ws[j].window_id@
}

/// The window at `x` has a non-empty id that `ids` lists.
pub open spec fn listed(ws: Seq<Window>, ids: Seq<Seq<char>>, x: int) -> bool {
    0 <= x < ws.len() && ws[x].window_id@.len() > 0 && ids.contains(ws[x].window_id@)
}

proof fn lemma_window_with_id_is(ws: Seq<Window>, id: Seq<char>, x: int)
    requires
        ids_distinct(ws),
    ensures
        (window_with_id(ws, id) == Some(x)) == (0 <= x < ws.len() && ws[x].window_id@.len() > 0
            && ws[x].window_id@ == id),
{
    lemma_window_with_id_from(ws, id, 0);
}

proof fn lemma_members_count(ws: Seq<Window>, ids: Seq<Seq<char>>, x: int)
    requires
        ids_distinct(ws),
        ids.no_duplicates(),
    ensures
        count_of(section_members(ws, ids), x) == if listed(ws, ids, x) {
            1nat
        } else {
            0nat
        },
    decreases ids.len(),
{
    if ids.len() > 0 {
        let d = ids.drop_last();
        lemma_drop_last_unique(ids);
        lemma_members_count(ws, d, x);
        lemma_window_with_id_is(ws, ids.last(), x);
        let prev = section_members(ws, d);
        if let Some(i) = window_with_id(ws, ids.last()) {
            lemma_count_push(prev, i, x);
        }
        assert(ids =~= d.push(ids.last()));
        if 0 <= x < ws.len() {
            lemma_push_contains(d, ids.last(), ws[x].window_id@);
        }
        lemma_last_not_before(ids);
    }
}

proof fn lemma_sections_count(ws: Seq<Window>, l: Seq<SectionView>, x: int)
    requires
        ids_distinct(ws),
        ids_unique(l),
    ensures
        count_of(flatten(section_groups(ws, l)), x) == if 0 <= x < ws.len() && is_assigned(ws[x], l) {
            1nat
        } else {
            0nat
        },
    decreases l.len(),
{
    if l.len() > 0 {
        let d = l.drop_last();
        let last: int = l.len() - 1;
        assert(ids_unique(d)) by {
            assert forall|k1: int, k2: int, y: Seq<char>|
                0 <= k1 < d.len() && 0 <= k2 < d.len() && k1 != k2 && #[trigger] d[k1].windows.contains(y)
                    implies !#[trigger] d[k2].windows.contains(y) by {
                assert(d[k1] == l[k1] && d[k2] == l[k2]);
            }
        }
        lemma_sections_count(ws, d, x);
        assert(l[last] == l.last());
        let m = section_members(ws, l.last().windows);
        lemma_members_count(ws, l.last().windows, x);
        let prev = section_groups(ws, d);
        if m.len() > 0 {
            lemma_groups_push(prev, (l.last().name, m));
            lemma_count_concat(flatten(prev), m, x);
        }
        if 0 <= x < ws.len() {
            let w = ws[x];
            let id = w.window_id@;
            if is_assigned(w, l) {
                let k = choose|k: int| 0 <= k < l.len() && #[trigger] l[k].windows.contains(id);
                if k < last {
                    assert(d[k] == l[k]);
                }
            }
            if is_assigned(w, d) {
                let k = choose|k: int| 0 <= k < d.len() && #[trigger] d[k].windows.contains(id);
                assert(d[k] == l[k]);
                assert(l[k].windows.contains(id));
                assert(!l[last].windows.contains(id));
            }
            if listed(ws, l.last().windows, x) {
                assert(l[last].windows.contains(id));
            }
        }
    }
}

proof fn lemma_unassigned_count(ws: Seq<Window>, l: Seq<SectionView>, m: int, x: int)
    requires
        0 <= m <= ws.len(),
    ensures
        count_of(unassigned_upto(ws, l, m), x) == if 0 <= x < m && !is_assigned(ws[x], l) {
            1nat
        } else {
            0nat
        },
    decreases m,
{
    if m > 0 {
        lemma_unassigned_count(ws, l, m - 1, x);
        if !is_assigned(ws[m - 1], l) {
            lemma_count_push(unassigned_upto(ws, l, m - 1), m - 1, x);
        }
    }
}

// ---------------------------------------------------------------------------
// Folder groups
// ---------------------------------------------------------------------------

proof fn lemma_members_named_count(ws: Seq<Window>, idx: Seq<int>, n: Seq<char>, x: int)
    ensures
        count_of(members_named(ws, idx, n), x) == if ws[x].group@ == n {
            count_of(idx, x)
        } else {
            0nat
        },
    decreases idx.len(),
{
    if idx.len() > 0 {
        lemma_members_named_count(ws, idx.drop_last(), n, x);
        if ws[idx.last()].group@ == n {
            lemma_count_push(members_named(ws, idx.drop_last(), n), idx.last(), x);
        }
    }
}

proof fn lemma_group_names(ws: Seq<Window>, idx: Seq<int>, x: int)
    ensures
        group_names(ws, idx).no_duplicates(),
        count_of(idx, x) > 0 ==> group_names(ws, idx).contains(ws[x].group@),
    decreases idx.len(),
{
    if idx.len() > 0 {
        let d = idx.drop_last();
        lemma_group_names(ws, d, x);
        let prev = group_names(ws, d);
        let g = ws[idx.last()].group@;
        if !prev.contains(g) {
            lemma_push_unique(prev, g);
            lemma_push_contains(prev, g, ws[x].group@);
        }
    }
}

proof fn lemma_without_name(names: Seq<Seq<char>>, n: Seq<char>, g: Seq<char>)
    requires
        names.no_duplicates(),
    ensures
        without_name(names, n).no_duplicates(),
        without_name(names, n).contains(g) == (names.contains(g) && g != n),
    decreases names.len(),
{
    if names.len() > 0 {
        let d = names.drop_last();
        lemma_drop_last_unique(names);
        lemma_without_name(d, n, g);
        let prev = without_name(d, n);
        assert(names =~= d.push(names.last()));
        lemma_push_contains(d, names.last(), g);
        if names.last() != n {
            lemma_without_name(d, n, names.last());
            lemma_last_not_before(names);
            lemma_push_unique(prev, names.last());
            lemma_push_contains(prev, names.last(), g);
        }
    }
}

proof fn lemma_prepend_contains<A>(v: A, s: Seq<A>, g: A)
    ensures
        (seq![v] + s).contains(g) == (g == v || s.contains(g)),
{
    let t = seq![v] + s;
    if s.contains(g) {
        let i = choose|i: int| 0 <= i < s.len() && s[i] == g;
        assert(t[i + 1] == g);
    }
    if g == v {
        assert(t[0] == v);
    }
    if t.contains(g) && g != v {
        let i = choose|i: int| 0 <= i < t.len() && t[i] == g;
        assert(s[i - 1] == g);
    }
}

proof fn lemma_prepend_unique<A>(v: A, s: Seq<A>)
    requires
        s.no_duplicates(),
        !s.contains(v),
    ensures
        (seq![v] + s).no_duplicates(),
{
    let t = seq![v] + s;
    assert forall|i: int, j: int| 0 <= i < t.len() && 0 <= j < t.len() && i != j implies t[i] != t[j] by {
        if i > 0 && j > 0 {
            assert(t[i] == s[i - 1] && t[j] == s[j - 1]);
        } else if i > 0 {
            assert(t[i] == s[i - 1]);
        } else {
            assert(t[j] == s[j - 1]);
        }
    }
}

proof fn lemma_insert_sorted_contains(x: Seq<char>, s: Seq<Seq<char>>, g: Seq<char>)
    ensures
        insert_sorted(x, s).contains(g) == (g == x || s.contains(g)),
    decreases s.len(),
{
    if s.len() == 0 {
        lemma_prepend_contains(x, s, g);
        assert(seq![x] + s =~= seq![x]);
    } else {
        let t = s.drop_first();
        assert(s =~= seq![s[0]] + t);
        lemma_prepend_contains(s[0], t, g);
        lemma_prepend_contains(x, s, g);
        lemma_insert_sorted_contains(x, t, g);
        lemma_prepend_contains(s[0], insert_sorted(x, t), g);
    }
}

proof fn lemma_insert_sorted_unique(x: Seq<char>, s: Seq<Seq<char>>)
    requires
        s.no_duplicates(),
        !s.contains(x),
    ensures
        insert_sorted(x, s).no_duplicates(),
    decreases s.len(),
{
    if s.len() == 0 {
        assert(insert_sorted(x, s) =~= seq![x]);
        assert(seq![x].no_duplicates());
    } else {
        let t = s.drop_first();
        assert(s =~= seq![s[0]] + t);
        lemma_prepend_contains(s[0], t, x);
        assert(t.no_duplicates()) by {
            assert forall|i: int, j: int| 0 <= i < t.len() && 0 <= j < t.len() && i != j implies t[i] != t[j] by {
                assert(t[i] == s[i + 1] && t[j] == s[j + 1]);
            }
        }
        assert(!t.contains(s[0])) by {
            if t.contains(s[0]) {
                let i = choose|i: int| 0 <= i < t.len() && t[i] == s[0];
                assert(s[i + 1] == s[0]);
            }
        }
        lemma_prepend_unique(x, s);
        lemma_insert_sorted_unique(x, t);
        lemma_insert_sorted_contains(x, t, s[0]);
        assert(s[0] != x) by {
            assert(s.contains(s[0]));
        }
        lemma_prepend_unique(s[0], insert_sorted(x, t));
    }
}

proof fn lemma_sort_contains(names: Seq<Seq<char>>, g: Seq<char>)
    ensures
        sort_by_lowercase(names).contains(g) == names.contains(g),
    decreases names.len(),
{
    if names.len() > 0 {
        let d = names.drop_last();
        lemma_sort_contains(d, g);
        lemma_insert_sorted_contains(names.last(), sort_by_lowercase(d), g);
        assert(names =~= d.push(names.last()));
        lemma_push_contains(d, names.last(), g);
    }
}

proof fn lemma_sort_unique(names: Seq<Seq<char>>)
    requires
        names.no_duplicates(),
    ensures
        sort_by_lowercase(names).no_duplicates(),
    decreases names.len(),
{
    if names.len() > 0 {
        let d = names.drop_last();
        lemma_drop_last_unique(names);
        lemma_sort_unique(d);
        lemma_sort_contains(d, names.last());
        lemma_last_not_before(names);
        lemma_insert_sorted_unique(names.last(), sort_by_lowercase(d));
    }
}

proof fn lemma_named_groups_count(
    ws: Seq<Window>,
    idx: Seq<int>,
    names: Seq<Seq<char>>,
    body: Seq<(Seq<char>, Seq<int>)>,
    x: int,
)
    requires
        names.no_duplicates(),
        body.len() == names.len(),
        forall|k: int|
            0 <= k < names.len() ==> #[trigger] body[k] == (names[k], members_named(ws, idx, names[k])),
    ensures
        count_of(flatten(body), x) == if names.contains(ws[x].group@) {
            count_of(idx, x)
        } else {
            0nat
        },
    decreases names.len(),
{
    if names.len() > 0 {
        let d = names.drop_last();
        let b = body.drop_last();
        lemma_drop_last_unique(names);
        assert forall|k: int| 0 <= k < d.len() implies #[trigger] b[k] == (d[k], members_named(ws, idx, d[k])) by {
            assert(b[k] == body[k] && d[k] == names[k]);
        }
        lemma_named_groups_count(ws, idx, d, b, x);
        let last: int = names.len() - 1;
        assert(body.last() == body[last]);
        assert(names.last() == names[last]);
        lemma_count_concat(flatten(b), body.last().1, x);
        lemma_members_named_count(ws, idx, names.last(), x);
        assert(names =~= d.push(names.last()));
        lemma_push_contains(d, names.last(), ws[x].group@);
        lemma_last_not_before(names);
    }
}

proof fn lemma_folder_count(ws: Seq<Window>, idx: Seq<int>, x: int)
    ensures
        count_of(flatten(folder_groups(ws, idx)), x) == count_of(idx, x),
{
    let names = group_names(ws, idx);
    let other = "Other"@;
    let g = ws[x].group@;
    lemma_group_names(ws, idx, x);
    let wo = without_name(names, other);
    lemma_without_name(names, other, g);
    let sorted = sort_by_lowercase(wo);
    lemma_sort_unique(wo);
    lemma_sort_contains(wo, g);
    let fg = folder_groups(ws, idx);
    let body = if names.contains(other) {
        fg.drop_last()
    } else {
        fg
    };
    assert(body.len() == sorted.len());
    assert forall|k: int| 0 <= k < sorted.len() implies #[trigger] body[k] == (sorted[k], members_named(
        ws,
        idx,
        sorted[k],
    )) by {
        assert(body[k] == fg[k]);
    }
    lemma_named_groups_count(ws, idx, sorted, body, x);
    if names.contains(other) {
        assert(fg =~= body.push((other, members_named(ws, idx, other))));
        lemma_groups_push(body, (other, members_named(ws, idx, other)));
        lemma_count_concat(flatten(body), members_named(ws, idx, other), x);
        lemma_members_named_count(ws, idx, other, x);
    }
}

// ---------------------------------------------------------------------------
// Case-insensitive order
// ---------------------------------------------------------------------------

proof fn lemma_lex_less_transitive(a: Seq<char>, b: Seq<char>, c: Seq<char>)
    requires
        lex_less(a, b),
        lex_less(b, c),
    ensures
        lex_less(a, c),
    decreases a.len(),
{
    if a.len() > 0 && a[0] == b[0] && b[0] == c[0] {
        lemma_lex_less_transitive(a.drop_first(), b.drop_first(), c.drop_first());
    }
}

proof fn lemma_lex_less_asymmetric(a: Seq<char>, b: Seq<char>)
    requires
        lex_less(a, b),
    ensures
        !lex_less(b, a),
    decreases a.len(),
{
    if a.len() > 0 && a[0] == b[0] {
        lemma_lex_less_asymmetric(a.drop_first(), b.drop_first());
    }
}

/// No name sorts, by its lowercase form, before one that comes earlier.
pub open spec fn sorted_lower(s: Seq<Seq<char>>) -> bool {
    forall|i: int, j: int|
        0 <= i < j < s.len() ==> !lex_less(lowercase(#[trigger] s[j]), lowercase(#[trigger] s[i]))
}

proof fn lemma_insert_sorted_sorted(x: Seq<char>, s: Seq<Seq<char>>)
    requires
        sorted_lower(s),
    ensures
        sorted_lower(insert_sorted(x, s)),
    decreases s.len(),
{
    if s.len() > 0 {
        let t = s.drop_first();
        let r = insert_sorted(x, s);
        if lex_less(lowercase(x), lowercase(s[0])) {
            assert(r == seq![x] + s);
            assert forall|i: int, j: int| 0 <= i < j < r.len() implies !lex_less(
                lowercase(#[trigger] r[j]),
                lowercase(#[trigger] r[i]),
            ) by {
                assert(r[j] == s[j - 1]);
                if i == 0 {
                    if j - 1 > 0 {
                        assert(!lex_less(lowercase(s[j - 1]), lowercase(s[0])));
                    } else {
                        lemma_lex_less_asymmetric(lowercase(x), lowercase(s[0]));
                    }
                    if lex_less(lowercase(s[j - 1]), lowercase(x)) {
                        lemma_lex_less_transitive(lowercase(s[j - 1]), lowercase(x), lowercase(s[0]));
                    }
                } else {
                    assert(r[i] == s[i - 1]);
                }
            }
        } else {
            assert forall|i: int, j: int| 0 <= i < j < t.len() implies !lex_less(
                lowercase(#[trigger] t[j]),
                lowercase(#[trigger] t[i]),
            ) by {
                assert(t[j] == s[j + 1] && t[i] == s[i + 1]);
            }
            lemma_insert_sorted_sorted(x, t);
            let u = insert_sorted(x, t);
            assert(r == seq![s[0]] + u);
            assert forall|i: int, j: int| 0 <= i < j < r.len() implies !lex_less(
                lowercase(#[trigger] r[j]),
                lowercase(#[trigger] r[i]),
            ) by {
                assert(r[j] == u[j - 1]);
                if i == 0 {
                    lemma_insert_sorted_contains(x, t, u[j - 1]);
                    assert(u.contains(u[j - 1]));
                    if u[j - 1] != x {
                        let k = choose|k: int| 0 <= k < t.len() && t[k] == u[j - 1];
                        assert(t[k] == s[k + 1]);
                    }
                } else {
                    assert(r[i] == u[i - 1]);
                }
            }
        }
    }
}

proof fn lemma_sort_sorted(names: Seq<Seq<char>>)
    ensures
        sorted_lower(sort_by_lowercase(names)),
    decreases names.len(),
{
    if names.len() > 0 {
        lemma_sort_sorted(names.drop_last());
        lemma_insert_sorted_sorted(names.last(), sort_by_lowercase(names.drop_last()));
    }
}

// ---------------------------------------------------------------------------
// Where a window goes
// ---------------------------------------------------------------------------

proof fn lemma_count_contains(s: Seq<int>, x: int)
    ensures
        (count_of(s, x) > 0) == s.contains(x),
    decreases s.len(),
{
    if s.len() > 0 {
        let d = s.drop_last();
        lemma_count_contains(d, x);
        assert(s =~= d.push(s.last()));
        lemma_push_contains(d, s.last(), x);
    }
}

/// Moving the `herdr` group loses no group.
proof fn lemma_pin_herdr_keeps(gs: Seq<(Seq<char>, Seq<int>)>, i: int)
    requires
        0 <= i < gs.len(),
    ensures
        exists|k: int| 0 <= k < pin_herdr(gs).len() && #[trigger] pin_herdr(gs)[k] == gs[i],
{
    lemma_group_position_from(gs, "herdr"@, 0);
    let r = pin_herdr(gs);
    if let Some(p) = group_position_from(gs, "herdr"@, 0) {
        let rest = gs.remove(p);
        assert(r == seq![gs[p]] + rest);
        if i == p {
            assert(r[0] == gs[i]);
        } else if i < p {
            assert(rest[i] == gs[i]);
            assert(r[i + 1] == gs[i]);
        } else {
            assert(rest[i - 1] == gs[i]);
            assert(r[i] == gs[i]);
        }
    } else {
        assert(r[i] == gs[i]);
    }
}

proof fn lemma_members_contains(ws: Seq<Window>, ids: Seq<Seq<char>>, x: int)
    requires
        ids_distinct(ws),
        listed(ws, ids, x),
    ensures
        section_members(ws, ids).contains(x),
    decreases ids.len(),
{
    let d = ids.drop_last();
    let id = ws[x].window_id@;
    assert(ids =~= d.push(ids.last()));
    lemma_push_contains(d, ids.last(), id);
    lemma_window_with_id_is(ws, ids.last(), x);
    let prev = section_members(ws, d);
    if ids.last() == id {
        assert(section_members(ws, ids) == prev.push(x));
        lemma_push_contains(prev, x, x);
    } else {
        lemma_members_contains(ws, d, x);
        if let Some(i) = window_with_id(ws, ids.last()) {
            lemma_push_contains(prev, i, x);
        }
    }
}

proof fn lemma_section_group_holds(ws: Seq<Window>, l: Seq<SectionView>, j: int, x: int)
    requires
        ids_distinct(ws),
        0 <= j < l.len(),
        listed(ws, l[j].windows, x),
    ensures
        exists|k: int|
            0 <= k < section_groups(ws, l).len() && (#[trigger] section_groups(ws, l)[k]).0 == l[j].name
                && section_groups(ws, l)[k].1.contains(x),
    decreases l.len(),
{
    let d = l.drop_last();
    let prev = section_groups(ws, d);
    let m = section_members(ws, l.last().windows);
    let g = section_groups(ws, l);
    if j == l.len() - 1 {
        lemma_members_contains(ws, l.last().windows, x);
        assert(m.len() > 0);
        assert(g == prev.push((l.last().name, m)));
        assert(g[prev.len() as int] == (l[j].name, m));
    } else {
        assert(d[j] == l[j]);
        lemma_section_group_holds(ws, d, j, x);
        let k = choose|k: int|
            0 <= k < prev.len() && (#[trigger] prev[k]).0 == d[j].name && prev[k].1.contains(x);
        assert(g[k] == prev[k]);
    }
}

proof fn lemma_folder_group_holds(ws: Seq<Window>, idx: Seq<int>, x: int)
    requires
        count_of(idx, x) > 0,
    ensures
        exists|k: int|
            0 <= k < folder_groups(ws, idx).len() && (#[trigger] folder_groups(ws, idx)[k]).0
                == ws[x].group@ && folder_groups(ws, idx)[k].1.contains(x),
{
    let names = group_names(ws, idx);
    let other = "Other"@;
    let g = ws[x].group@;
    lemma_group_names(ws, idx, x);
    let wo = without_name(names, other);
    lemma_without_name(names, other, g);
    let sorted = sort_by_lowercase(wo);
    lemma_sort_contains(wo, g);
    let fg = folder_groups(ws, idx);
    lemma_members_named_count(ws, idx, g, x);
    lemma_count_contains(members_named(ws, idx, g), x);
    if g == other {
        assert(fg.last() == (other, members_named(ws, idx, other)));
        assert(fg[fg.len() - 1] == fg.last());
    } else {
        let k = choose|k: int| 0 <= k < sorted.len() && sorted[k] == g;
        assert(fg[k] == (sorted[k], members_named(ws, idx, sorted[k])));
    }
}

// ---------------------------------------------------------------------------
// The laws
// ---------------------------------------------------------------------------

/// The sidebar shows every window exactly once, and nothing else: custom
/// sections take the windows they list, the folder groups take all the
/// others, and pinning `herdr` only moves a group. This holds when no two
/// windows share a non-empty id and no id is listed twice in the layout
/// (every layout operation keeps that).
pub proof fn lemma_every_window_shown_once(ws: Seq<Window>, l: Seq<SectionView>, x: int)
    requires
        ids_distinct(ws),
        ids_unique(l),
    ensures
        count_of(flatten(grouped_spec(ws, l)), x) == if 0 <= x < ws.len() {
            1nat
        } else {
            0nat
        },
{
    let s = section_groups(ws, l);
    let u = unassigned_upto(ws, l, ws.len() as int);
    let f = folder_groups(ws, u);
    lemma_pin_herdr_count(s + f, x);
    lemma_groups_concat(s, f);
    lemma_count_concat(flatten(s), flatten(f), x);
    lemma_sections_count(ws, l, x);
    lemma_folder_count(ws, u, x);
    lemma_unassigned_count(ws, l, ws.len() as int, x);
}

/// When a window no section claims sits in the `Other` folder group, the
/// sidebar's last group is `Other`.
pub proof fn lemma_other_group_last(ws: Seq<Window>, l: Seq<SectionView>, x: int)
    requires
        0 <= x < ws.len(),
        !is_assigned(ws[x], l),
        ws[x].group@ == "Other"@,
    ensures
        grouped_spec(ws, l).len() > 0,
        grouped_spec(ws, l).last().0 == "Other"@,
{
    reveal_strlit("Other");
    reveal_strlit("herdr");
    let other = "Other"@;
    let u = unassigned_upto(ws, l, ws.len() as int);
    lemma_unassigned_count(ws, l, ws.len() as int, x);
    lemma_group_names(ws, u, x);
    let f = folder_groups(ws, u);
    let gs = section_groups(ws, l) + f;
    assert(f.last().0 == other);
    assert(gs.last() == f.last());
    lemma_group_position_from(gs, "herdr"@, 0);
    if let Some(p) = group_position_from(gs, "herdr"@, 0) {
        assert(gs[p].0[0] == 'h');
        assert(other[0] == 'O');
        assert(gs[p].0 != other);
        assert(p != gs.len() - 1);
        let r = gs.remove(p);
        assert(r.last() == gs.last());
        assert((seq![gs[p]] + r).last() == r.last());
    }
}

/// When any group is named `herdr`, the first group is.
pub proof fn lemma_herdr_group_first(ws: Seq<Window>, l: Seq<SectionView>, k: int)
    requires
        0 <= k < grouped_spec(ws, l).len(),
        grouped_spec(ws, l)[k].0 == "herdr"@,
    ensures
        grouped_spec(ws, l)[0].0 == "herdr"@,
{
    let gs = section_groups(ws, l) + folder_groups(ws, unassigned_upto(ws, l, ws.len() as int));
    lemma_group_position_from(gs, "herdr"@, 0);
}

/// Folder groups come in case-insensitive order of their names, except
/// `Other`, which comes only last.
pub proof fn lemma_folder_groups_in_order(ws: Seq<Window>, idx: Seq<int>)
    ensures
        ({
            let fg = folder_groups(ws, idx);
            &&& forall|i: int, j: int|
                0 <= i < j < fg.len() && fg[j].0 != "Other"@ ==> !lex_less(
                    lowercase(#[trigger] fg[j].0),
                    lowercase(#[trigger] fg[i].0),
                )
            &&& forall|i: int| 0 <= i < fg.len() && #[trigger] fg[i].0 == "Other"@ ==> i == fg.len() - 1
        }),
{
    let names = group_names(ws, idx);
    let other = "Other"@;
    let wo = without_name(names, other);
    let sorted = sort_by_lowercase(wo);
    let fg = folder_groups(ws, idx);
    lemma_group_names(ws, idx, 0);
    lemma_sort_sorted(wo);
    assert forall|k: int| 0 <= k < sorted.len() implies fg[k].0 == #[trigger] sorted[k] by {}
    assert forall|k: int| 0 <= k < sorted.len() implies #[trigger] sorted[k] != other by {
        assert(sorted.contains(sorted[k]));
        lemma_sort_contains(wo, sorted[k]);
        lemma_without_name(names, other, sorted[k]);
    }
    assert forall|i: int, j: int|
        0 <= i < j < fg.len() && fg[j].0 != other implies !lex_less(
            lowercase(#[trigger] fg[j].0),
            lowercase(#[trigger] fg[i].0),
        ) by {
        assert(j < sorted.len());
        assert(fg[j].0 == sorted[j] && fg[i].0 == sorted[i]);
    }
    assert forall|i: int| 0 <= i < fg.len() && #[trigger] fg[i].0 == other implies i == fg.len() - 1 by {
        if i < sorted.len() {
            assert(fg[i].0 == sorted[i]);
        }
    }
}

/// A window no section claims is shown in the group named by its folder
/// group; a window a section lists is shown under that section's name
/// (when no two windows share a non-empty id).
pub proof fn lemma_window_in_its_group(ws: Seq<Window>, l: Seq<SectionView>, x: int, j: int)
    requires
        0 <= x < ws.len(),
    ensures
        !is_assigned(ws[x], l) ==> exists|k: int|
            0 <= k < grouped_spec(ws, l).len() && (#[trigger] grouped_spec(ws, l)[k]).0 == ws[x].group@
                && grouped_spec(ws, l)[k].1.contains(x),
        (ids_distinct(ws) && 0 <= j < l.len() && listed(ws, l[j].windows, x)) ==> exists|k: int|
            0 <= k < grouped_spec(ws, l).len() && (#[trigger] grouped_spec(ws, l)[k]).0 == l[j].name
                && grouped_spec(ws, l)[k].1.contains(x),
{
    let s = section_groups(ws, l);
    let u = unassigned_upto(ws, l, ws.len() as int);
    let f = folder_groups(ws, u);
    let gs = s + f;
    if !is_assigned(ws[x], l) {
        lemma_unassigned_count(ws, l, ws.len() as int, x);
        lemma_folder_group_holds(ws, u, x);
        let k = choose|k: int|
            0 <= k < f.len() && (#[trigger] f[k]).0 == ws[x].group@ && f[k].1.contains(x);
        assert(gs[s.len() + k] == f[k]);
        lemma_pin_herdr_keeps(gs, s.len() + k);
        assert(grouped_spec(ws, l) == pin_herdr(gs));
        let k2 = choose|k2: int| 0 <= k2 < pin_herdr(gs).len() && #[trigger] pin_herdr(gs)[k2] == gs[s.len() + k];
        assert(grouped_spec(ws, l)[k2] == f[k]);
    }
    if ids_distinct(ws) && 0 <= j < l.len() && listed(ws, l[j].windows, x) {
        lemma_section_group_holds(ws, l, j, x);
        let k = choose|k: int|
            0 <= k < s.len() && (#[trigger] s[k]).0 == l[j].name && s[k].1.contains(x);
        assert(gs[k] == s[k]);
        lemma_pin_herdr_keeps(gs, k);
        assert(grouped_spec(ws, l) == pin_herdr(gs));
        let k2 = choose|k2: int| 0 <= k2 < pin_herdr(gs).len() && #[trigger] pin_herdr(gs)[k2] == gs[k];
        assert(grouped_spec(ws, l)[k2] == s[k]);
    }
}

proof fn lemma_position_of_unique(s: Seq<Seq<char>>, j: int, k: int)
    requires
        s.no_duplicates(),
        0 <= k <= j < s.len(),
    ensures
        position_of(s, s[j], k) == Some(j),
    decreases j - k,
{
    if k < j {
        assert(s[k] != s[j]);
        lemma_position_of_unique(s, j, k + 1);
    }
}

/// In a sidebar order without repeats, stepping to the next window and then
/// to the previous one comes back to where it started, and so does stepping
/// back and then forward; every step lands on a window of the order.
pub proof fn lemma_next_then_prev_returns(order: Seq<Seq<char>>, current: Seq<char>)
    requires
        order.no_duplicates(),
        order.contains(current),
    ensures
        adjacent_spec(order, adjacent_spec(order, current, Direction::Next), Direction::Prev) == current,
        adjacent_spec(order, adjacent_spec(order, current, Direction::Prev), Direction::Next) == current,
        order.contains(adjacent_spec(order, current, Direction::Next)),
        order.contains(adjacent_spec(order, current, Direction::Prev)),
{
    let n = order.len() as int;
    let i = choose|i: int| 0 <= i < n && order[i] == current;
    lemma_position_of_unique(order, i, 0);
    let nx = (i + 1) % n;
    let pv = (i + n - 1) % n;
    assert(0 <= nx < n && 0 <= pv < n) by (nonlinear_arith)
        requires
            0 <= i < n,
            nx == (i + 1) % n,
            pv == (i + n - 1) % n,
    ;
    assert((nx + n - 1) % n == i) by (nonlinear_arith)
        requires
            0 <= i < n,
            nx == (i + 1) % n,
    {
        if i + 1 < n {
            assert(nx == i + 1);
        } else {
            assert(nx == 0);
        }
    }
    assert((pv + 1) % n == i) by (nonlinear_arith)
        requires
            0 <= i < n,
            pv == (i + n - 1) % n,
    {
        if i > 0 {
            assert(pv == i - 1);
        } else {
            assert(pv == n - 1);
        }
    }
    lemma_position_of_unique(order, nx, 0);
    lemma_position_of_unique(order, pv, 0);
}

proof fn lemma_count_two(s: Seq<int>, a: int, b: int)
    requires
        0 <= a < b < s.len(),
        s[a] == s[b],
    ensures
        count_of(s, s[a]) >= 2,
{
    let x = s[a];
    let t = s.take(b);
    let u = s.skip(b);
    assert(s =~= t + u);
    lemma_count_concat(t, u, x);
    assert(t[a] == x);
    lemma_count_contains(t, x);
    assert(u[0] == x);
    lemma_count_contains(u, x);
}

/// When no two windows share a non-empty id or an index and no id is listed
/// twice in the layout, the sidebar order lists every window's index exactly
/// once, so `--select` steps through each window in turn.
pub proof fn lemma_sidebar_order_has_no_repeats(ws: Seq<Window>, l: Seq<SectionView>)
    requires
        ids_distinct(ws),
        ids_unique(l),
        forall|i: int, j: int| 0 <= i < ws.len() && 0 <= j < ws.len() && i != j ==> ws[i].index@ != ws[j].index@,
    ensures
        sidebar_order_spec(ws, l).no_duplicates(),
        forall|i: int| 0 <= i < ws.len() ==> sidebar_order_spec(ws, l).contains(#[trigger] ws[i].index@),
{
    let fl = flatten(grouped_spec(ws, l));
    let order = sidebar_order_spec(ws, l);
    assert forall|a: int| 0 <= a < fl.len() implies 0 <= #[trigger] fl[a] < ws.len() by {
        lemma_every_window_shown_once(ws, l, fl[a]);
        lemma_count_contains(fl, fl[a]);
        assert(fl.contains(fl[a]));
    }
    assert forall|a: int, b: int| 0 <= a < order.len() && 0 <= b < order.len() && a != b implies order[a] != order[b] by {
        if a < b {
            if fl[a] == fl[b] {
                lemma_count_two(fl, a, b);
                lemma_every_window_shown_once(ws, l, fl[a]);
            }
        } else {
            if fl[a] == fl[b] {
                lemma_count_two(fl, b, a);
                lemma_every_window_shown_once(ws, l, fl[b]);
            }
        }
        assert(order[a] == ws[fl[a]].index@ && order[b] == ws[fl[b]].index@);
    }
    assert forall|i: int| 0 <= i < ws.len() implies order.contains(#[trigger] ws[i].index@) by {
        lemma_every_window_shown_once(ws, l, i);
        lemma_count_contains(fl, i);
        let a = choose|a: int| 0 <= a < fl.len() && fl[a] == i;
        assert(order[a] == ws[i].index@);
    }
}

} // verus!
