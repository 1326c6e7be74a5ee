//! What editing a desktop file promises: a read gives back what was set, an edit
//! touches no other key, and text read and written back comes out the same.
use vstd::prelude::*;

use crate::desktop_file::{
    LineView, classify, get_spec, group_range_spec, insert_at, is_any_header, is_char, is_content,
    is_header, is_key, key_index, pair_value, parse_spec, remove_all_spec, remove_spec, render, set_spec,
    text_of,
};
use crate::search::{
    first_from, last_in, lemma_first_from_found, lemma_first_from_insert, lemma_first_from_none,
    lemma_first_from_props, lemma_first_from_remove, lemma_first_from_same,
    lemma_first_from_shift_insert, lemma_first_from_shift_remove, lemma_last_in_props,
};
use crate::text::{
    has_ws, is_ws, lemma_trim_end_at, lemma_trim_start_at, lines, lines_state, strip_cr, trim,
};

verus! {

/// The end of the body that starts at `s`.
pub open spec fn body_end(ls: Seq<LineView>, s: int) -> int {
    match first_from(ls, s, ls.len() as int, is_any_header()) {
        Some(e) => e,
        None => ls.len() as int,
    }
}

proof fn lemma_body_end(ls: Seq<LineView>, s: int)
    requires
        0 <= s <= ls.len(),
    ensures
        s <= body_end(ls, s) <= ls.len(),
        forall|m: int| s <= m < body_end(ls, s) ==> !(#[trigger] ls[m] is Group),
        body_end(ls, s) < ls.len() ==> ls[body_end(ls, s)] is Group,
{
    lemma_first_from_props(ls, s, ls.len() as int, is_any_header());
}

proof fn lemma_group_range(ls: Seq<LineView>, g: Seq<char>)
    ensures
        match group_range_spec(ls, g) {
            Some((s, e)) => {
                &&& 1 <= s <= e <= ls.len()
                &&& ls[s - 1] == LineView::Group(g)
                &&& forall|m: int| 0 <= m < s - 1 ==> #[trigger] ls[m] != LineView::Group(g)
                &&& e == body_end(ls, s)
            },
            None => forall|m: int| 0 <= m < ls.len() ==> #[trigger] ls[m] != LineView::Group(g),
        },
{
    lemma_first_from_props(ls, 0, ls.len() as int, is_header(g));
    if let Some(h) = first_from(ls, 0, ls.len() as int, is_header(g)) {
        lemma_body_end(ls, h + 1);
    }
}

/// Two groups whose bodies share a line are the same group.
proof fn lemma_bodies_disjoint(ls: Seq<LineView>, g1: Seq<char>, g2: Seq<char>, i: int)
    requires
        group_range_spec(ls, g1) matches Some((s1, e1)) && s1 <= i < e1,
        group_range_spec(ls, g2) matches Some((s2, e2)) && s2 <= i < e2,
    ensures
        g1 == g2,
{
    lemma_group_range(ls, g1);
    lemma_group_range(ls, g2);
    let (s1, e1) = group_range_spec(ls, g1).unwrap();
    let (s2, e2) = group_range_spec(ls, g2).unwrap();
    lemma_body_end(ls, s1);
    lemma_body_end(ls, s2);
    if s1 < s2 {
        assert(ls[s2 - 1] is Group);
    } else if s2 < s1 {
        assert(ls[s1 - 1] is Group);
    }
}

/// After `set`, the key's first pair in the group holds the new value.
proof fn lemma_set_finds(ls: Seq<LineView>, g: Seq<char>, k: Seq<char>, v: Seq<char>) -> (j: int)
    ensures
        key_index(set_spec(ls, g, k, v), g, k) == Some(j),
        0 <= j < set_spec(ls, g, k, v).len(),
        set_spec(ls, g, k, v)[j] == LineView::Pair(k, v),
        group_range_spec(ls, g) is Some && key_index(ls, g, k) is None ==> set_spec(ls, g, k, v)
            == ls.insert(j, LineView::Pair(k, v)),
{
    let n = ls.len() as int;
    let pair = LineView::Pair(k, v);
    lemma_group_range(ls, g);
    match group_range_spec(ls, g) {
        None => {
            let t = ls.push(LineView::Group(g)).push(pair);
            assert forall|m: int| 0 <= m < n implies !is_header(g)(#[trigger] t[m]) by {
                assert(t[m] == ls[m]);
            }
            lemma_first_from_found(t, 0, n + 2, is_header(g), n);
            assert(!is_any_header()(t[n + 1]));
            lemma_first_from_none(t, n + 1, n + 2, is_any_header());
            lemma_first_from_found(t, n + 1, n + 2, is_key(k), n + 1);
            n + 1
        },
        Some((s, e)) => {
            lemma_first_from_props(ls, s, e, is_key(k));
            match first_from(ls, s, e, is_key(k)) {
                Some(i) => {
                    let t = ls.update(i, pair);
                    assert forall|m: int| 0 <= m < n implies is_header(g)(#[trigger] t[m])
                        == is_header(g)(ls[m]) by {}
                    assert forall|m: int| 0 <= m < n implies is_any_header()(#[trigger] t[m])
                        == is_any_header()(ls[m]) by {}
                    lemma_first_from_same(t, ls, 0, n, is_header(g));
                    lemma_first_from_same(t, ls, s, n, is_any_header());
                    lemma_first_from_found(t, s, e, is_key(k), i);
                    i
                },
                None => {
                    let p = insert_at(ls, s, e);
                    lemma_last_in_props(ls, s, e, is_content());
                    assert(s <= p <= e);
                    let t = ls.insert(p, pair);
                    ls.insert_ensures(p, pair);
                    lemma_first_from_insert(ls, p, pair, 0, n, is_header(g));
                    lemma_first_from_props(ls, 0, n, is_header(g));
                    lemma_first_from_insert(ls, p, pair, s, n, is_any_header());
                    lemma_first_from_props(ls, s, n, is_any_header());
                    assert(group_range_spec(t, g) == Some((s, e + 1)));
                    assert forall|m: int| s <= m < p implies !is_key(k)(#[trigger] t[m]) by {
                        assert(t[m] == ls[m]);
                    }
                    lemma_first_from_found(t, s, e + 1, is_key(k), p);
                    p
                },
            }
        },
    }
}

/// Removing a key that was just added to an existing group gives back the lines as
/// they were before.
pub proof fn law_remove_undoes_set(ls: Seq<LineView>, g: Seq<char>, k: Seq<char>, v: Seq<char>)
    requires
        group_range_spec(ls, g) is Some,
        key_index(ls, g, k) is None,
    ensures
        remove_spec(set_spec(ls, g, k, v), g, k) == ls,
{
    let j = lemma_set_finds(ls, g, k, v);
    let pair = LineView::Pair(k, v);
    lemma_group_range(ls, g);
    let (s, e) = group_range_spec(ls, g).unwrap();
    lemma_last_in_props(ls, s, e, is_content());
    assert(0 <= j <= ls.len());
    assert(ls.insert(j, pair).remove(j) =~= ls);
}

/// A raw line that is empty or all whitespace.
pub open spec fn blank(l: LineView) -> bool {
    l matches LineView::Raw(r) && trim(r).len() == 0
}

/// Setting a key that its existing group lacks inserts `k=v` into the group's body just
/// after the body's last non-blank line, before any trailing blank lines (at the end of
/// a body that is all blank), and changes nothing else; the position is returned.
pub proof fn law_set_inserts_after_content(ls: Seq<LineView>, g: Seq<char>, k: Seq<char>, v: Seq<char>) -> (p: int)
    requires
        group_range_spec(ls, g) is Some,
        key_index(ls, g, k) is None,
    ensures
        set_spec(ls, g, k, v) == ls.insert(p, LineView::Pair(k, v)),
        group_range_spec(ls, g) matches Some((s, e)) && s <= p <= e && if exists|q: int|
            s <= q < e && !blank(#[trigger] ls[q]) {
            &&& s < p
            &&& !blank(ls[p - 1])
            &&& forall|q: int| p <= q < e ==> blank(#[trigger] ls[q])
        } else {
            p == e
        },
{
    lemma_group_range(ls, g);
    let (s, e) = group_range_spec(ls, g).unwrap();
    lemma_last_in_props(ls, s, e, is_content());
    lemma_first_from_props(ls, s, e, is_key(k));
    let p = insert_at(ls, s, e);
    assert forall|q: int| s <= q < e implies blank(#[trigger] ls[q]) == !is_content()(ls[q]) by {}
    if exists|q: int| s <= q < e && !blank(#[trigger] ls[q]) {
        let q = choose|q: int| s <= q < e && !blank(#[trigger] ls[q]);
        assert(is_content()(ls[q]));
    }
    p
}

/// Reading a key right after setting it gives the value that was set.
pub proof fn law_get_after_set(ls: Seq<LineView>, g: Seq<char>, k: Seq<char>, v: Seq<char>)
    ensures
        get_spec(set_spec(ls, g, k, v), g, k) == Some(v),
{
    lemma_set_finds(ls, g, k, v);
}

/// Setting the same key to the same value twice changes nothing the second time: no
/// duplicate pair is made.
pub proof fn law_set_idempotent(ls: Seq<LineView>, g: Seq<char>, k: Seq<char>, v: Seq<char>)
    ensures
        set_spec(set_spec(ls, g, k, v), g, k, v) == set_spec(ls, g, k, v),
{
    let t = set_spec(ls, g, k, v);
    let j = lemma_set_finds(ls, g, k, v);
    assert(t.update(j, LineView::Pair(k, v)) =~= t);
}


/// Inserting a line that is not a header moves group bodies that lie after it.
proof fn lemma_group_range_insert(ls: Seq<LineView>, p: int, x: LineView, g2: Seq<char>)
    requires
        0 <= p <= ls.len(),
        !(x is Group),
    ensures
        group_range_spec(ls.insert(p, x), g2) == match group_range_spec(ls, g2) {
            None => None,
            Some((s2, e2)) => Some(
                (if s2 <= p { s2 } else { s2 + 1 }, if e2 < p { e2 } else { e2 + 1 }),
            ),
        },
{
    let n = ls.len() as int;
    let t = ls.insert(p, x);
    ls.insert_ensures(p, x);
    lemma_first_from_insert(ls, p, x, 0, n, is_header(g2));
    lemma_first_from_props(ls, 0, n, is_header(g2));
    lemma_group_range(ls, g2);
    if let Some((s2, e2)) = group_range_spec(ls, g2) {
        lemma_body_end(ls, s2);
        lemma_first_from_props(ls, s2, n, is_any_header());
        if s2 <= p {
            lemma_first_from_insert(ls, p, x, s2, n, is_any_header());
        } else {
            lemma_first_from_shift_insert(ls, p, x, s2, n, is_any_header());
        }
    }
}

/// Removing a line that is not a header moves group bodies that lie after it.
proof fn lemma_group_range_remove(ls: Seq<LineView>, q: int, g2: Seq<char>)
    requires
        0 <= q < ls.len(),
        !(ls[q] is Group),
    ensures
        group_range_spec(ls.remove(q), g2) == match group_range_spec(ls, g2) {
            None => None,
            Some((s2, e2)) => Some(
                (if s2 <= q { s2 } else { s2 - 1 }, if e2 <= q { e2 } else { e2 - 1 }),
            ),
        },
{
    let n = ls.len() as int;
    let t = ls.remove(q);
    ls.remove_ensures(q);
    lemma_first_from_remove(ls, q, 0, n, is_header(g2));
    lemma_first_from_props(ls, 0, n, is_header(g2));
    lemma_group_range(ls, g2);
    if let Some((s2, e2)) = group_range_spec(ls, g2) {
        lemma_body_end(ls, s2);
        lemma_first_from_props(ls, s2, n, is_any_header());
        if s2 <= q {
            lemma_first_from_remove(ls, q, s2, n, is_any_header());
        } else {
            lemma_first_from_shift_remove(ls, q, s2, n, is_any_header());
        }
    }
}

/// Changing one line that is not a header leaves every group body where it was.
proof fn lemma_group_range_update(ls: Seq<LineView>, i: int, x: LineView, g2: Seq<char>)
    requires
        0 <= i < ls.len(),
        !(x is Group),
        !(ls[i] is Group),
    ensures
        group_range_spec(ls.update(i, x), g2) == group_range_spec(ls, g2),
{
    let n = ls.len() as int;
    let t = ls.update(i, x);
    assert forall|m: int| 0 <= m < n implies is_header(g2)(#[trigger] t[m]) == is_header(g2)(
        ls[m],
    ) by {}
    assert forall|m: int| 0 <= m < n implies is_any_header()(#[trigger] t[m])
        == is_any_header()(ls[m]) by {}
    lemma_first_from_same(t, ls, 0, n, is_header(g2));
    if let Some(h) = first_from(ls, 0, n, is_header(g2)) {
        lemma_first_from_props(ls, 0, n, is_header(g2));
        lemma_first_from_same(t, ls, h + 1, n, is_any_header());
    }
}

/// Setting a key leaves the value of every other key, in every group, as it was.
pub proof fn law_set_keeps_other_keys(
    ls: Seq<LineView>,
    g: Seq<char>,
    k: Seq<char>,
    v: Seq<char>,
    g2: Seq<char>,
    k2: Seq<char>,
)
    requires
        g2 != g || k2 != k,
    ensures
        get_spec(set_spec(ls, g, k, v), g2, k2) == get_spec(ls, g2, k2),
{
    let n = ls.len() as int;
    let pair = LineView::Pair(k, v);
    lemma_group_range(ls, g);
    lemma_group_range(ls, g2);
    match group_range_spec(ls, g) {
        None => {
            let t = ls.push(LineView::Group(g)).push(pair);
            match group_range_spec(ls, g2) {
                None => {
                    if g2 == g {
                        let j = lemma_set_finds(ls, g, k, v);
                        lemma_group_range(t, g);
                        let (s, e) = group_range_spec(t, g).unwrap();
                        lemma_first_from_props(t, s, e, is_key(k));
                        assert(s == n + 1 && e == n + 2);
                        assert(!is_key(k2)(t[n + 1]));
                        lemma_first_from_none(t, s, e, is_key(k2));
                    } else {
                        assert forall|m: int| 0 <= m < n + 2 implies !is_header(g2)(
                            #[trigger] t[m],
                        ) by {
                            if m < n {
                                assert(t[m] == ls[m]);
                            }
                        }
                        lemma_first_from_none(t, 0, n + 2, is_header(g2));
                    }
                },
                Some((s2, e2)) => {
                    assert forall|m: int| 0 <= m < s2 - 1 implies !is_header(g2)(#[trigger] t[m]) by {
                        assert(t[m] == ls[m]);
                    }
                    assert(t[s2 - 1] == ls[s2 - 1]);
                    lemma_first_from_found(t, 0, n + 2, is_header(g2), s2 - 1);
                    lemma_body_end(ls, s2);
                    assert forall|m: int| s2 <= m < e2 implies !is_any_header()(#[trigger] t[m]) by {
                        assert(t[m] == ls[m]);
                    }
                    lemma_first_from_found(t, s2, n + 2, is_any_header(), e2);
                    assert(group_range_spec(t, g2) == Some((s2, e2)));
                    assert forall|m: int| s2 <= m < e2 implies is_key(k2)(#[trigger] t[m]) == is_key(
                        k2,
                    )(ls[m]) by {
                        assert(t[m] == ls[m]);
                    }
                    lemma_first_from_same(t, ls, s2, e2, is_key(k2));
                    lemma_first_from_props(ls, s2, e2, is_key(k2));
                    if let Some(j) = first_from(ls, s2, e2, is_key(k2)) {
                        assert(t[j] == ls[j]);
                    }
                },
            }
        },
        Some((s, e)) => {
            lemma_first_from_props(ls, s, e, is_key(k));
            match first_from(ls, s, e, is_key(k)) {
                Some(i) => {
                    let t = ls.update(i, pair);
                    lemma_group_range_update(ls, i, pair, g2);
                    if let Some((s2, e2)) = group_range_spec(ls, g2) {
                        assert forall|m: int| s2 <= m < e2 implies is_key(k2)(#[trigger] t[m])
                            == is_key(k2)(ls[m]) by {}
                        lemma_first_from_same(t, ls, s2, e2, is_key(k2));
                        lemma_first_from_props(ls, s2, e2, is_key(k2));
                        if let Some(j) = first_from(ls, s2, e2, is_key(k2)) {
                            if j == i {
                                lemma_bodies_disjoint(ls, g, g2, i);
                            }
                        }
                    }
                },
                None => {
                    let p = insert_at(ls, s, e);
                    lemma_last_in_props(ls, s, e, is_content());
                    let t = ls.insert(p, pair);
                    ls.insert_ensures(p, pair);
                    lemma_group_range_insert(ls, p, pair, g2);
                    if let Some((s2, e2)) = group_range_spec(ls, g2) {
                        lemma_first_from_props(ls, s2, e2, is_key(k2));
                        if s2 == s {
                            assert(ls[s2 - 1] == LineView::Group(g2));
                            assert(g2 == g);
                            assert(!is_key(k2)(pair));
                            lemma_first_from_insert(ls, p, pair, s2, e2, is_key(k2));
                        } else if s2 < s {
                            lemma_body_end(ls, s2);
                            assert(ls[s - 1] is Group);
                            assert(e2 <= s - 1);
                            assert forall|m: int| s2 <= m < e2 implies is_key(k2)(#[trigger] t[m])
                                == is_key(k2)(ls[m]) by {
                                assert(t[m] == ls[m]);
                            }
                            lemma_first_from_same(t, ls, s2, e2, is_key(k2));
                        } else {
                            lemma_body_end(ls, s);
                            assert(ls[s2 - 1] is Group);
                            assert(e <= s2 - 1);
                            lemma_first_from_shift_insert(ls, p, pair, s2, e2, is_key(k2));
                        }
                    }
                },
            }
        },
    }
}

/// Removing a key leaves the value of every other key, in every group, as it was.
pub proof fn law_remove_keeps_other_keys(
    ls: Seq<LineView>,
    g: Seq<char>,
    k: Seq<char>,
    g2: Seq<char>,
    k2: Seq<char>,
)
    requires
        g2 != g || k2 != k,
    ensures
        get_spec(remove_spec(ls, g, k), g2, k2) == get_spec(ls, g2, k2),
{
    lemma_group_range(ls, g);
    lemma_group_range(ls, g2);
    if let Some(i) = key_index(ls, g, k) {
        let (s, e) = group_range_spec(ls, g).unwrap();
        lemma_first_from_props(ls, s, e, is_key(k));
        let t = ls.remove(i);
        ls.remove_ensures(i);
        lemma_group_range_remove(ls, i, g2);
        if let Some((s2, e2)) = group_range_spec(ls, g2) {
            lemma_first_from_props(ls, s2, e2, is_key(k2));
            if s2 == s {
                assert(ls[s2 - 1] == LineView::Group(g2));
                assert(g2 == g);
                assert(!is_key(k2)(ls[i]));
                lemma_first_from_remove(ls, i, s2, e2, is_key(k2));
            } else if s2 < s {
                lemma_body_end(ls, s2);
                assert(ls[s - 1] is Group);
                assert(e2 <= s - 1);
                assert forall|m: int| s2 <= m < e2 implies is_key(k2)(#[trigger] t[m]) == is_key(
                    k2,
                )(ls[m]) by {
                    assert(t[m] == ls[m]);
                }
                lemma_first_from_same(t, ls, s2, e2, is_key(k2));
            } else {
                lemma_body_end(ls, s);
                assert(ls[s2 - 1] is Group);
                assert(e <= s2 - 1);
                lemma_first_from_shift_remove(ls, i, s2, e2, is_key(k2));
            }
        }
    }
}

/// Removing a key that occurs once in its group leaves it unset there.
pub proof fn law_get_after_remove(ls: Seq<LineView>, g: Seq<char>, k: Seq<char>)
    requires
        group_range_spec(ls, g) matches Some((s, e)) && forall|m1: int, m2: int|
            s <= m1 < e && s <= m2 < e && is_key(k)(#[trigger] ls[m1]) && is_key(k)(
                #[trigger] ls[m2],
            ) ==> m1 == m2,
    ensures
        get_spec(remove_spec(ls, g, k), g, k) is None,
{
    lemma_group_range(ls, g);
    if let Some(i) = key_index(ls, g, k) {
        let (s, e) = group_range_spec(ls, g).unwrap();
        lemma_first_from_props(ls, s, e, is_key(k));
        let t = ls.remove(i);
        ls.remove_ensures(i);
        lemma_group_range_remove(ls, i, g);
        assert(group_range_spec(t, g) == Some((s, e - 1)));
        assert forall|m: int| s <= m < e - 1 implies !is_key(k)(#[trigger] t[m]) by {
            if m >= i {
                assert(t[m] == ls[m + 1]);
                if is_key(k)(ls[m + 1]) {
                    assert(is_key(k)(ls[i]));
                }
            } else {
                assert(t[m] == ls[m]);
            }
        }
        lemma_first_from_none(t, s, e - 1, is_key(k));
    }
}


/// Where `key_index` points: a pair with the key, inside the lines.
pub proof fn lemma_key_index_bounds(ls: Seq<LineView>, g: Seq<char>, k: Seq<char>)
    ensures
        key_index(ls, g, k) matches Some(i) ==> 0 <= i < ls.len() && is_key(k)(ls[i]),
{
    lemma_group_range(ls, g);
    if let Some((s, e)) = group_range_spec(ls, g) {
        lemma_first_from_props(ls, s, e, is_key(k));
    }
}

/// After every pair with key `k` is removed from group `g`, the key is unset there.
pub proof fn law_get_after_remove_all(ls: Seq<LineView>, g: Seq<char>, k: Seq<char>)
    ensures
        key_index(remove_all_spec(ls, g, k), g, k) is None,
        get_spec(remove_all_spec(ls, g, k), g, k) is None,
    decreases ls.len(),
{
    lemma_key_index_bounds(ls, g, k);
    if let Some(i) = key_index(ls, g, k) {
        law_get_after_remove_all(ls.remove(i), g, k);
    }
}

/// Removing every pair with key `k` from group `g` leaves the value of every other key,
/// in every group, as it was.
pub proof fn law_remove_all_keeps_other_keys(
    ls: Seq<LineView>,
    g: Seq<char>,
    k: Seq<char>,
    g2: Seq<char>,
    k2: Seq<char>,
)
    requires
        g2 != g || k2 != k,
    ensures
        get_spec(remove_all_spec(ls, g, k), g2, k2) == get_spec(ls, g2, k2),
    decreases ls.len(),
{
    lemma_key_index_bounds(ls, g, k);
    if let Some(i) = key_index(ls, g, k) {
        law_remove_keeps_other_keys(ls, g, k, g2, k2);
        law_remove_all_keeps_other_keys(ls.remove(i), g, k, g2, k2);
    }
}

/// Removing every pair with a key twice changes nothing the second time.
pub proof fn law_remove_all_idempotent(ls: Seq<LineView>, g: Seq<char>, k: Seq<char>)
    ensures
        remove_all_spec(remove_all_spec(ls, g, k), g, k) == remove_all_spec(ls, g, k),
{
    law_get_after_remove_all(ls, g, k);
}

/// Removing every pair with a key that was just added to an existing group, where it
/// was not before, gives back the lines as they were.
pub proof fn law_remove_all_undoes_set(ls: Seq<LineView>, g: Seq<char>, k: Seq<char>, v: Seq<char>)
    requires
        group_range_spec(ls, g) is Some,
        key_index(ls, g, k) is None,
    ensures
        remove_all_spec(set_spec(ls, g, k, v), g, k) == ls,
{
    let t = set_spec(ls, g, k, v);
    law_remove_undoes_set(ls, g, k, v);
    lemma_key_index_bounds(t, g, k);
    let j = lemma_set_finds(ls, g, k, v);
    assert(remove_spec(t, g, k) == t.remove(j));
    assert(remove_all_spec(t, g, k) == remove_all_spec(t.remove(j), g, k));
}


/// Lines joined, each followed by a newline.
pub open spec fn join_lines(ls: Seq<Seq<char>>) -> Seq<char>
    decreases ls.len(),
{
    if ls.len() == 0 {
        seq![]
    } else {
        join_lines(ls.drop_last()) + ls.last() + seq!['\n']
    }
}

/// The text ends in a carriage return.
pub open spec fn ends_cr(s: Seq<char>) -> bool {
    s.len() > 0 && s.last() == '\r'
}

/// No carriage return stands right before a newline.
pub open spec fn no_crlf(t: Seq<char>) -> bool {
    forall|i: int| 0 <= i < t.len() - 1 ==> !(#[trigger] t[i] == '\r' && t[i + 1] == '\n')
}

/// A line that reads back as itself once written, and whose text neither holds a
/// newline nor ends in a carriage return.
pub open spec fn line_wf(l: LineView) -> bool {
    &&& classify(render(l)) == l
    &&& !render(l).contains('\n')
    &&& !ends_cr(render(l))
}

/// A line of text that is written back exactly as it reads.
pub open spec fn canonical(raw: Seq<char>) -> bool {
    render(classify(raw)) == raw
}

proof fn lemma_text_of_join(ls: Seq<LineView>)
    ensures
        text_of(ls) == join_lines(ls.map_values(|l: LineView| render(l))),
    decreases ls.len(),
{
    if ls.len() > 0 {
        lemma_text_of_join(ls.drop_last());
        assert(ls.drop_last().map_values(|l: LineView| render(l)) =~= ls.map_values(
            |l: LineView| render(l),
        ).drop_last());
    }
}

proof fn lemma_lines_state_append(a: Seq<char>, b: Seq<char>)
    requires
        lines_state(a).1.len() == 0,
        !b.contains('\n'),
    ensures
        lines_state(a + b) == (lines_state(a).0, b),
    decreases b.len(),
{
    if b.len() == 0 {
        assert(a + b =~= a);
        assert(lines_state(a).1 =~= b);
    } else {
        assert((a + b).drop_last() =~= a + b.drop_last());
        assert(!b.drop_last().contains('\n')) by {
            if b.drop_last().contains('\n') {
                let i = choose|i: int| 0 <= i < b.drop_last().len() && b.drop_last()[i] == '\n';
                assert(b[i] == '\n');
            }
        }
        lemma_lines_state_append(a, b.drop_last());
        assert(b[b.len() - 1] != '\n');
        assert(b.drop_last().push(b.last()) =~= b);
    }
}

/// The lines of joined text that holds no newline inside a line: each line, with one
/// trailing carriage return dropped.
proof fn lemma_lines_of_join(ls: Seq<Seq<char>>)
    requires
        forall|i: int| 0 <= i < ls.len() ==> !(#[trigger] ls[i]).contains('\n'),
    ensures
        lines_state(join_lines(ls)) == (ls.map_values(|l: Seq<char>| strip_cr(l)), Seq::<char>::empty()),
        lines(join_lines(ls)) == ls.map_values(|l: Seq<char>| strip_cr(l)),
    decreases ls.len(),
{
    let f = |l: Seq<char>| strip_cr(l);
    if ls.len() == 0 {
        assert(lines_state(join_lines(ls)).0 =~= ls.map_values(f));
    } else {
        let init = ls.drop_last();
        lemma_lines_of_join(init);
        let a = join_lines(init);
        lemma_lines_state_append(a, ls.last());
        let full = a + ls.last() + seq!['\n'];
        assert(full.drop_last() =~= a + ls.last());
        assert(init.map_values(f).push(strip_cr(ls.last())) =~= ls.map_values(f));
    }
}

/// Writing well-formed lines and reading the text back gives the same lines.
pub proof fn law_parse_of_text(ls: Seq<LineView>)
    requires
        forall|i: int| 0 <= i < ls.len() ==> line_wf(#[trigger] ls[i]),
    ensures
        parse_spec(text_of(ls)) == ls,
{
    let rs = ls.map_values(|l: LineView| render(l));
    lemma_text_of_join(ls);
    assert forall|i: int| 0 <= i < rs.len() implies !(#[trigger] rs[i]).contains('\n') && !ends_cr(
        rs[i],
    ) by {
        assert(line_wf(ls[i]));
    }
    lemma_lines_of_join(rs);
    assert(rs.map_values(|l: Seq<char>| strip_cr(l)) =~= rs);
    assert(parse_spec(text_of(ls)) =~= ls) by {
        assert forall|i: int| 0 <= i < ls.len() implies #[trigger] parse_spec(text_of(ls))[i]
            == ls[i] by {
            assert(line_wf(ls[i]));
        }
    }
}

proof fn lemma_lines_state_join(s: Seq<char>)
    requires
        no_crlf(s),
    ensures
        join_lines(lines_state(s).0) + lines_state(s).1 == s,
        lines_state(s).1 == s.skip(s.len() - lines_state(s).1.len()),
        lines_state(s).1.len() <= s.len(),
    decreases s.len(),
{
    if s.len() > 0 {
        let init = s.drop_last();
        assert(no_crlf(init)) by {
            assert forall|i: int| 0 <= i < init.len() - 1 implies !(#[trigger] init[i] == '\r'
                && init[i + 1] == '\n') by {
                assert(init[i] == s[i] && init[i + 1] == s[i + 1]);
            }
        }
        lemma_lines_state_join(init);
        let (done, cur) = lines_state(init);
        if s.last() == '\n' {
            if cur.len() > 0 {
                assert(cur.last() == init[init.len() - 1]);
                assert(s[s.len() - 2] == init[init.len() - 1]);
                assert(cur.last() != '\r');
            }
            assert(strip_cr(cur) == cur);
            assert(done.push(cur).drop_last() =~= done);
            assert(join_lines(done.push(cur)) + Seq::<char>::empty() =~= s);
            assert(s.skip(s.len() as int) =~= Seq::<char>::empty());
        } else {
            assert(init.push(s.last()) =~= s);
            assert((join_lines(done) + cur).push(s.last()) =~= join_lines(done) + cur.push(s.last()));
            assert(join_lines(done) + cur.push(s.last()) =~= s);
            assert(cur.push(s.last()) =~= s.skip(s.len() - (cur.len() + 1)));
        }
    } else {
        assert(s.skip(0) =~= s);
    }
}

/// Text whose lines are all written in the form they read as comes back unchanged
/// from a parse and a write, provided it ends with a newline (or is empty) and uses
/// no carriage-return line endings.
pub proof fn law_text_of_parse(t: Seq<char>)
    requires
        t.len() == 0 || t.last() == '\n',
        no_crlf(t),
        forall|i: int| 0 <= i < lines(t).len() ==> canonical(#[trigger] lines(t)[i]),
    ensures
        text_of(parse_spec(t)) == t,
{
    lemma_lines_state_join(t);
    if t.len() > 0 {
        assert(lines_state(t).1.len() == 0);
    } else {
        assert(lines_state(t).1 =~= Seq::<char>::empty());
    }
    let ps = parse_spec(t);
    lemma_text_of_join(ps);
    let rs = ps.map_values(|l: LineView| render(l));
    assert(rs =~= lines(t)) by {
        assert forall|i: int| 0 <= i < lines(t).len() implies #[trigger] rs[i] == lines(t)[i] by {
            assert(canonical(lines(t)[i]));
        }
    }
}

/// The character is not whitespace.
pub open spec fn non_ws() -> spec_fn(char) -> bool {
    |c: char| !is_ws(c)
}

/// With its first and last non-whitespace characters at `a` and `b - 1`, `s` trims to
/// `s[a..b]`.
proof fn lemma_trim_at(s: Seq<char>, a: int, b: int)
    requires
        0 <= a < b <= s.len(),
        forall|k: int| 0 <= k < a ==> is_ws(#[trigger] s[k]),
        forall|k: int| b <= k < s.len() ==> is_ws(#[trigger] s[k]),
        !is_ws(s[a]),
        !is_ws(s[b - 1]),
    ensures
        trim(s) == s.subrange(a, b),
{
    lemma_trim_start_at(s, a);
    let t = s.skip(a);
    assert forall|k: int| b - a <= k < t.len() implies is_ws(#[trigger] t[k]) by {
        assert(t[k] == s[a + k]);
    }
    lemma_trim_end_at(t, b - a);
    assert(t.take(b - a) =~= s.subrange(a, b));
}

/// Whitespace alone trims to nothing.
proof fn lemma_trim_all_ws(s: Seq<char>)
    requires
        forall|k: int| 0 <= k < s.len() ==> is_ws(#[trigger] s[k]),
    ensures
        trim(s).len() == 0,
{
    lemma_trim_start_at(s, s.len() as int);
    assert(s.skip(s.len() as int) =~= Seq::<char>::empty());
}

/// Where `s` trims to: `s[a..b]`, with `a` its first and `b - 1` its last
/// non-whitespace character, or an empty range when it is all whitespace.
proof fn lemma_trim_bounds(s: Seq<char>) -> (r: (int, int))
    ensures
        0 <= r.0 <= r.1 <= s.len(),
        trim(s) == s.subrange(r.0, r.1),
        r.0 < r.1 ==> {
            &&& !is_ws(s[r.0])
            &&& !is_ws(s[r.1 - 1])
            &&& forall|k: int| 0 <= k < r.0 ==> is_ws(#[trigger] s[k])
            &&& forall|k: int| r.1 <= k < s.len() ==> is_ws(#[trigger] s[k])
        },
        r.0 == r.1 ==> forall|k: int| 0 <= k < s.len() ==> is_ws(#[trigger] s[k]),
{
    let n = s.len() as int;
    crate::search::lemma_first_from_props(s, 0, n, non_ws());
    crate::search::lemma_last_in_props(s, 0, n, non_ws());
    match first_from(s, 0, n, non_ws()) {
        None => {
            lemma_trim_all_ws(s);
            assert(s.subrange(0, 0) =~= Seq::<char>::empty());
            (0, 0)
        },
        Some(a) => {
            let b = last_in(s, 0, n, non_ws()).unwrap() + 1;
            lemma_trim_at(s, a, b);
            (a, b)
        },
    }
}

proof fn lemma_no_newline_sub(s: Seq<char>, a: int, b: int)
    requires
        0 <= a <= b <= s.len(),
        !s.contains('\n'),
    ensures
        !s.subrange(a, b).contains('\n'),
{
    if s.subrange(a, b).contains('\n') {
        let i = choose|i: int| 0 <= i < b - a && s.subrange(a, b)[i] == '\n';
        assert(s[a + i] == '\n');
    }
}

/// A line read from text that holds no newline and does not end in a carriage return
/// is well-formed: written back, it reads as itself.
pub proof fn law_classified_line_wf(raw: Seq<char>)
    requires
        !raw.contains('\n'),
        !ends_cr(raw),
    ensures
        line_wf(classify(raw)),
{
    let n = raw.len() as int;
    let (ta, tb) = lemma_trim_bounds(raw);
    let t = trim(raw);
    if t.len() >= 2 && t[0] == '[' && t.last() == ']' {
        let name = t.subrange(1, t.len() - 1);
        let w = seq!['['] + name + seq![']'];
        assert(w =~= t);
        lemma_trim_at(t, 0, t.len() as int);
        assert(t.subrange(0, t.len() as int) =~= t);
        lemma_no_newline_sub(raw, ta, tb);
    } else if t.len() > 0 && t[0] == '#' {
    } else {
        crate::search::lemma_first_from_props(raw, 0, n, is_char('='));
        match first_from(raw, 0, n, is_char('=')) {
            None => {},
            Some(e) => {
                let pre = raw.take(e);
                let k = trim(pre);
                let v = raw.skip(e + 1);
                if k.len() > 0 && !has_ws(k) {
                    let (ka, kb) = lemma_trim_bounds(pre);
                    let kl = k.len() as int;
                    let w = k + seq!['='] + v;
                    assert(w[kl] == '=');
                    assert forall|i: int| 0 <= i < kl implies #[trigger] w[i] == pre[ka + i] by {}
                    assert forall|i: int| 0 <= i < v.len() implies #[trigger] w[kl + 1 + i] == raw[e + 1 + i] by {}
                    // The key holds no '='.
                    assert forall|i: int| 0 <= i < kl implies !is_char('=')(#[trigger] w[i]) by {
                        assert(w[i] == raw[ka + i]);
                    }
                    crate::search::lemma_first_from_found(w, 0, w.len() as int, is_char('='), kl);
                    // The key trims to itself.
                    lemma_trim_at(k, 0, kl);
                    assert(k.subrange(0, kl) =~= k);
                    assert(w.take(kl) =~= k);
                    assert(w.skip(kl + 1) =~= v);
                    // How the written line and the raw line trim.
                    crate::search::lemma_last_in_props(v, 0, v.len() as int, non_ws());
                    assert(!is_ws('='));
                    let tw_end: int = match last_in(v, 0, v.len() as int, non_ws()) {
                        Some(m) => kl + 2 + m,
                        None => kl + 1,
                    };
                    assert forall|i: int| tw_end <= i < w.len() implies is_ws(#[trigger] w[i]) by {
                        assert(w[i] == v[i - kl - 1]);
                    }
                    lemma_trim_at(w, 0, tw_end);
                    let tw = trim(w);
                    assert(tw[0] == k[0]);
                    assert(!(tw[0] == '#')) by {
                        assert(raw[ka] == k[0]);
                        assert forall|i: int| 0 <= i < ka implies is_ws(#[trigger] raw[i]) by {
                            assert(raw[i] == pre[i]);
                        }
                    }
                    if let Some(m) = last_in(v, 0, v.len() as int, non_ws()) {
                        assert(raw[e + 1 + m] == v[m]);
                        assert forall|i: int| 0 <= i < ka implies is_ws(#[trigger] raw[i]) by {
                            assert(raw[i] == pre[i]);
                        }
                        assert forall|i: int| e + 2 + m <= i < n implies is_ws(#[trigger] raw[i]) by {
                            assert(raw[i] == v[i - e - 1]);
                        }
                        assert(raw[ka] == pre[ka]);
                        lemma_trim_at(raw, ka, e + 2 + m);
                        assert(t[0] == k[0]);
                        assert(t.last() == v[m]);
                        assert(tw.last() == v[m]);
                    }
                    // Nothing in the written line is a newline, nor is its end a carriage return.
                    lemma_no_newline_sub(raw, 0, e);
                    lemma_no_newline_sub(pre, ka, kb);
                    lemma_no_newline_sub(raw, e + 1, n);
                    assert(raw.subrange(e + 1, n) =~= v);
                    assert(pre.subrange(ka, kb) == k);
                    assert(raw.subrange(0, e) =~= pre);
                    assert(!w.contains('\n')) by {
                        if w.contains('\n') {
                            let i = choose|i: int| 0 <= i < w.len() && w[i] == '\n';
                            if i < kl {
                                assert(k[i] == '\n');
                            } else if i > kl {
                                assert(v[i - kl - 1] == '\n');
                            }
                        }
                    }
                    if v.len() > 0 {
                        assert(w.last() == raw.last());
                    }
                }
            },
        }
    }
}

proof fn lemma_lines_no_newline(s: Seq<char>)
    ensures
        !lines_state(s).1.contains('\n'),
        forall|i: int| 0 <= i < lines_state(s).0.len() ==> !(#[trigger] lines_state(s).0[i]).contains('\n'),
        forall|i: int| 0 <= i < lines(s).len() ==> !(#[trigger] lines(s)[i]).contains('\n'),
    decreases s.len(),
{
    if s.len() > 0 {
        lemma_lines_no_newline(s.drop_last());
        let (done, cur) = lines_state(s.drop_last());
        if s.last() == '\n' {
            let c = strip_cr(cur);
            assert(!c.contains('\n')) by {
                if c.contains('\n') {
                    let i = choose|i: int| 0 <= i < c.len() && c[i] == '\n';
                    assert(cur[i] == '\n');
                }
            }
            assert(!Seq::<char>::empty().contains('\n'));
            assert forall|i: int| 0 <= i < done.push(c).len() implies !(#[trigger] done.push(c)[i]).contains('\n') by {
                if i < done.len() {
                    assert(done.push(c)[i] == done[i]);
                }
            }
        } else {
            let c = cur.push(s.last());
            assert(!c.contains('\n')) by {
                if c.contains('\n') {
                    let i = choose|i: int| 0 <= i < c.len() && c[i] == '\n';
                    if i < cur.len() {
                        assert(cur[i] == '\n');
                    }
                }
            }
        }
    } else {
        assert(!Seq::<char>::empty().contains('\n'));
    }
    let (done, cur) = lines_state(s);
    if cur.len() > 0 {
        assert forall|i: int| 0 <= i < done.push(cur).len() implies !(#[trigger] done.push(cur)[i]).contains('\n') by {
            if i < done.len() {
                assert(done.push(cur)[i] == done[i]);
            }
        }
    }
}

/// Reading text, writing it and reading it again gives what the first reading gave,
/// when no line of the text ends in a carriage return.
pub proof fn law_reparse(t: Seq<char>)
    requires
        forall|i: int| 0 <= i < lines(t).len() ==> !ends_cr(#[trigger] lines(t)[i]),
    ensures
        parse_spec(text_of(parse_spec(t))) == parse_spec(t),
{
    law_parsed_lines_wf(t);
    law_parse_of_text(parse_spec(t));
}

/// Every line reads back as itself once written.
pub open spec fn lines_wf(ls: Seq<LineView>) -> bool {
    forall|i: int| 0 <= i < ls.len() ==> line_wf(#[trigger] ls[i])
}

/// The lines read from text none of whose lines ends in a carriage return are
/// well-formed.
pub proof fn law_parsed_lines_wf(t: Seq<char>)
    requires
        forall|i: int| 0 <= i < lines(t).len() ==> !ends_cr(#[trigger] lines(t)[i]),
    ensures
        lines_wf(parse_spec(t)),
{
    lemma_lines_no_newline(t);
    let ps = parse_spec(t);
    assert forall|i: int| 0 <= i < ps.len() implies line_wf(#[trigger] ps[i]) by {
        law_classified_line_wf(lines(t)[i]);
    }
}

/// A pair whose key is non-empty, holds no whitespace and no `=`, and starts with
/// neither `[` nor `#`, and whose value holds no newline and does not end in a
/// carriage return, reads back as itself once written.
pub proof fn lemma_pair_wf(k: Seq<char>, v: Seq<char>)
    requires
        k.len() > 0,
        forall|i: int| 0 <= i < k.len() ==> !is_ws(#[trigger] k[i]) && k[i] != '=',
        k[0] != '[',
        k[0] != '#',
        !v.contains('\n'),
        !ends_cr(v),
    ensures
        line_wf(LineView::Pair(k, v)),
{
    let kl = k.len() as int;
    let w = k + seq!['='] + v;
    assert(render(LineView::Pair(k, v)) == w);
    assert(w[kl] == '=');
    assert forall|i: int| 0 <= i < kl implies #[trigger] w[i] == k[i] by {}
    assert forall|i: int| 0 <= i < v.len() implies #[trigger] w[kl + 1 + i] == v[i] by {}
    assert forall|i: int| 0 <= i < kl implies !is_char('=')(#[trigger] w[i]) by {
        assert(w[i] == k[i]);
    }
    crate::search::lemma_first_from_found(w, 0, w.len() as int, is_char('='), kl);
    assert(w.take(kl) =~= k);
    assert(w.skip(kl + 1) =~= v);
    lemma_trim_at(k, 0, kl);
    assert(k.subrange(0, kl) =~= k);
    assert(!has_ws(k));
    crate::search::lemma_last_in_props(v, 0, v.len() as int, non_ws());
    assert(!is_ws('='));
    let tw_end: int = match last_in(v, 0, v.len() as int, non_ws()) {
        Some(m) => kl + 2 + m,
        None => kl + 1,
    };
    assert forall|i: int| tw_end <= i < w.len() implies is_ws(#[trigger] w[i]) by {
        assert(w[i] == v[i - kl - 1]);
    }
    if let Some(m) = last_in(v, 0, v.len() as int, non_ws()) {
        assert(w[kl + 1 + m] == v[m]);
    }
    lemma_trim_at(w, 0, tw_end);
    assert(trim(w)[0] == k[0]);
    assert(!w.contains('\n')) by {
        if w.contains('\n') {
            let i = choose|i: int| 0 <= i < w.len() && w[i] == '\n';
            if i < kl {
                assert(is_ws(k[i]));
            } else if i > kl {
                assert(v[i - kl - 1] == '\n');
            }
        }
    }
    if v.len() > 0 {
        assert(w.last() == v.last());
    }
}

/// A header whose name holds no newline reads back as itself once written.
pub proof fn lemma_group_wf(g: Seq<char>)
    requires
        !g.contains('\n'),
    ensures
        line_wf(LineView::Group(g)),
{
    let w = seq!['['] + g + seq![']'];
    assert(render(LineView::Group(g)) == w);
    assert(!is_ws('[') && !is_ws(']'));
    lemma_trim_at(w, 0, w.len() as int);
    assert(w.subrange(0, w.len() as int) =~= w);
    assert(w.subrange(1, w.len() - 1) =~= g);
    assert(!w.contains('\n')) by {
        if w.contains('\n') {
            let i = choose|i: int| 0 <= i < w.len() && w[i] == '\n';
            assert(g[i - 1] == '\n');
        }
    }
}

/// Setting a well-formed pair in a group with a well-formed header keeps every line
/// well-formed.
pub proof fn lemma_set_wf(ls: Seq<LineView>, g: Seq<char>, k: Seq<char>, v: Seq<char>)
    requires
        lines_wf(ls),
        line_wf(LineView::Pair(k, v)),
        line_wf(LineView::Group(g)),
    ensures
        lines_wf(set_spec(ls, g, k, v)),
{
    let t = set_spec(ls, g, k, v);
    let pair = LineView::Pair(k, v);
    match group_range_spec(ls, g) {
        None => {
            assert forall|i: int| 0 <= i < t.len() implies line_wf(#[trigger] t[i]) by {
                if i < ls.len() {
                    assert(t[i] == ls[i]);
                }
            }
        },
        Some((s, e)) => {
            lemma_group_range(ls, g);
            match first_from(ls, s, e, is_key(k)) {
                Some(j) => {
                    lemma_first_from_props(ls, s, e, is_key(k));
                    assert forall|i: int| 0 <= i < t.len() implies line_wf(#[trigger] t[i]) by {
                        if i != j {
                            assert(t[i] == ls[i]);
                        }
                    }
                },
                None => {
                    let p = insert_at(ls, s, e);
                    lemma_last_in_props(ls, s, e, is_content());
                    assert forall|i: int| 0 <= i < t.len() implies line_wf(#[trigger] t[i]) by {
                        if i < p {
                            assert(t[i] == ls[i]);
                        } else if i > p {
                            assert(t[i] == ls[i - 1]);
                        }
                    }
                },
            }
        },
    }
}

/// A line whose text holds no newline: written, it is one line of the text.
pub open spec fn single_line(l: LineView) -> bool {
    !render(l).contains('\n')
}

/// A written line as the text's lines give it back: one trailing carriage return is
/// dropped, as `str::lines` drops it.
pub open spec fn text_line(l: LineView) -> Seq<char> {
    strip_cr(render(l))
}

/// The lines of the written text are the written lines.
proof fn lemma_text_lines(ls: Seq<LineView>)
    requires
        forall|i: int| 0 <= i < ls.len() ==> single_line(#[trigger] ls[i]),
    ensures
        lines(text_of(ls)) == ls.map_values(|l: LineView| text_line(l)),
{
    let rs = ls.map_values(|l: LineView| render(l));
    lemma_text_of_join(ls);
    assert forall|i: int| 0 <= i < rs.len() implies !(#[trigger] rs[i]).contains('\n') by {
        assert(single_line(ls[i]));
    }
    lemma_lines_of_join(rs);
    assert(rs.map_values(|l: Seq<char>| strip_cr(l)) =~= ls.map_values(|l: LineView| text_line(l)));
}

/// How the lines of the written text change under `set`: the line of the key's first
/// pair in the group is replaced by `k=v`; when the group has no such pair, `k=v` is
/// inserted after the group's last non-blank line; when there is no such group, its
/// header and `k=v` are appended. No other line changes. (A value ending in a carriage
/// return reads back without it, as every line of the text does.)
pub proof fn law_set_text_lines(ls: Seq<LineView>, g: Seq<char>, k: Seq<char>, v: Seq<char>)
    requires
        forall|i: int| 0 <= i < ls.len() ==> single_line(#[trigger] ls[i]),
        single_line(LineView::Pair(k, v)),
        single_line(LineView::Group(g)),
    ensures
        lines(text_of(ls)) == ls.map_values(|l: LineView| text_line(l)),
        ({
            let before = lines(text_of(ls));
            let after = lines(text_of(set_spec(ls, g, k, v)));
            let line = strip_cr(k + seq!['='] + v);
            match key_index(ls, g, k) {
                Some(j) => after == before.update(j, line),
                None => match group_range_spec(ls, g) {
                    Some((s, e)) => after == before.insert(insert_at(ls, s, e), line),
                    None => after == before.push(seq!['['] + g + seq![']']).push(line),
                },
            }
        }),
{
    let t = set_spec(ls, g, k, v);
    let pair = LineView::Pair(k, v);
    let f = |l: LineView| text_line(l);
    lemma_text_lines(ls);
    lemma_group_range(ls, g);
    match group_range_spec(ls, g) {
        None => {
            assert forall|i: int| 0 <= i < t.len() implies single_line(#[trigger] t[i]) by {
                if i < ls.len() {
                    assert(t[i] == ls[i]);
                }
            }
            lemma_text_lines(t);
            let header = seq!['['] + g + seq![']'];
            assert(header.last() == ']');
            assert(text_line(LineView::Group(g)) == header);
            assert(t.map_values(f) =~= ls.map_values(f).push(header).push(text_line(pair)));
        },
        Some((s, e)) => {
            lemma_first_from_props(ls, s, e, is_key(k));
            match first_from(ls, s, e, is_key(k)) {
                Some(j) => {
                    assert forall|i: int| 0 <= i < t.len() implies single_line(#[trigger] t[i]) by {
                        if i != j {
                            assert(t[i] == ls[i]);
                        }
                    }
                    lemma_text_lines(t);
                    assert(t.map_values(f) =~= ls.map_values(f).update(j, text_line(pair)));
                },
                None => {
                    let p = insert_at(ls, s, e);
                    lemma_last_in_props(ls, s, e, is_content());
                    assert forall|i: int| 0 <= i < t.len() implies single_line(#[trigger] t[i]) by {
                        if i < p {
                            assert(t[i] == ls[i]);
                        } else if i > p {
                            assert(t[i] == ls[i - 1]);
                        }
                    }
                    lemma_text_lines(t);
                    assert(t.map_values(f) =~= ls.map_values(f).insert(p, text_line(pair)));
                },
            }
        },
    }
}

/// How the lines of the written text change under `remove`: when the group holds the
/// key, exactly the line of its first pair there, `k=` and its value, is dropped;
/// otherwise the text stays as it was.
pub proof fn law_remove_text_lines(ls: Seq<LineView>, g: Seq<char>, k: Seq<char>)
    requires
        forall|i: int| 0 <= i < ls.len() ==> single_line(#[trigger] ls[i]),
    ensures
        lines(text_of(ls)) == ls.map_values(|l: LineView| text_line(l)),
        match key_index(ls, g, k) {
            Some(i) => {
                &&& lines(text_of(ls))[i] == strip_cr(k + seq!['='] + pair_value(ls[i]))
                &&& lines(text_of(remove_spec(ls, g, k))) == lines(text_of(ls)).remove(i)
            },
            None => text_of(remove_spec(ls, g, k)) == text_of(ls),
        },
{
    let f = |l: LineView| text_line(l);
    lemma_text_lines(ls);
    lemma_key_index_bounds(ls, g, k);
    if let Some(i) = key_index(ls, g, k) {
        let t = ls.remove(i);
        assert forall|m: int| 0 <= m < t.len() implies single_line(#[trigger] t[m]) by {
            if m < i {
                assert(t[m] == ls[m]);
            } else {
                assert(t[m] == ls[m + 1]);
            }
        }
        lemma_text_lines(t);
        assert(t.map_values(f) =~= ls.map_values(f).remove(i));
    }
}

/// A line read from text that holds no newline is well-formed when its written form
/// does not end in a carriage return (a header read from a line ending in one is).
pub proof fn lemma_classified_wf_unless_cr(raw: Seq<char>)
    requires
        !raw.contains('\n'),
        !ends_cr(render(classify(raw))),
    ensures
        line_wf(classify(raw)),
{
    if !ends_cr(raw) {
        law_classified_line_wf(raw);
    } else {
        let n = raw.len() as int;
        let (ta, tb) = lemma_trim_bounds(raw);
        let t = trim(raw);
        if t.len() >= 2 && t[0] == '[' && t.last() == ']' {
            lemma_no_newline_sub(raw, ta, tb);
            lemma_no_newline_sub(t, 1, t.len() - 1);
            lemma_group_wf(t.subrange(1, t.len() - 1));
        } else if t.len() > 0 && t[0] == '#' {
        } else {
            lemma_first_from_props(raw, 0, n, is_char('='));
            if let Some(e) = first_from(raw, 0, n, is_char('=')) {
                let k = trim(raw.take(e));
                let v = raw.skip(e + 1);
                if k.len() > 0 && !has_ws(k) {
                    let w = k + seq!['='] + v;
                    if v.len() > 0 {
                        assert(w.last() == v.last());
                        assert(v.last() == raw.last());
                    } else {
                        assert(raw[n - 1] == '=');
                    }
                }
            }
        }
    }
}

/// Every line read from text whose written form does not end in a carriage return is
/// well-formed.
pub proof fn lemma_parsed_wf_unless_cr(t: Seq<char>)
    ensures
        forall|j: int| 0 <= j < parse_spec(t).len() && !ends_cr(render(#[trigger] parse_spec(t)[j]))
            ==> line_wf(parse_spec(t)[j]),
{
    lemma_lines_no_newline(t);
    assert forall|j: int| 0 <= j < parse_spec(t).len() && !ends_cr(render(#[trigger] parse_spec(t)[j]))
        implies line_wf(parse_spec(t)[j]) by {
        lemma_classified_wf_unless_cr(lines(t)[j]);
    }
}

/// Every line after `set` is the new pair, the group's header, or a line that was there.
pub proof fn lemma_set_lines_from(ls: Seq<LineView>, g: Seq<char>, k: Seq<char>, v: Seq<char>)
    ensures
        forall|i: int| 0 <= i < set_spec(ls, g, k, v).len() ==> #[trigger] set_spec(ls, g, k, v)[i]
            == LineView::Pair(k, v) || set_spec(ls, g, k, v)[i] == LineView::Group(g) || ls.contains(
            set_spec(ls, g, k, v)[i],
        ),
{
    let t = set_spec(ls, g, k, v);
    match group_range_spec(ls, g) {
        None => {
            assert forall|i: int| 0 <= i < t.len() implies #[trigger] t[i] == LineView::Pair(k, v)
                || t[i] == LineView::Group(g) || ls.contains(t[i]) by {
                if i < ls.len() {
                    assert(t[i] == ls[i]);
                }
            }
        },
        Some((s, e)) => {
            lemma_group_range(ls, g);
            lemma_first_from_props(ls, s, e, is_key(k));
            match first_from(ls, s, e, is_key(k)) {
                Some(j) => {
                    assert forall|i: int| 0 <= i < t.len() implies #[trigger] t[i] == LineView::Pair(k, v)
                        || t[i] == LineView::Group(g) || ls.contains(t[i]) by {
                        if i != j {
                            assert(t[i] == ls[i]);
                        }
                    }
                },
                None => {
                    let p = insert_at(ls, s, e);
                    lemma_last_in_props(ls, s, e, is_content());
                    assert forall|i: int| 0 <= i < t.len() implies #[trigger] t[i] == LineView::Pair(k, v)
                        || t[i] == LineView::Group(g) || ls.contains(t[i]) by {
                        if i < p {
                            assert(t[i] == ls[i]);
                        } else if i > p {
                            assert(t[i] == ls[i - 1]);
                        }
                    }
                },
            }
        },
    }
}

/// Every line after removing pairs is a line that was there.
pub proof fn lemma_remove_all_lines_from(ls: Seq<LineView>, g: Seq<char>, k: Seq<char>)
    ensures
        forall|i: int| 0 <= i < remove_all_spec(ls, g, k).len() ==> ls.contains(
            #[trigger] remove_all_spec(ls, g, k)[i],
        ),
    decreases ls.len(),
{
    lemma_key_index_bounds(ls, g, k);
    if let Some(q) = key_index(ls, g, k) {
        let t = ls.remove(q);
        lemma_remove_all_lines_from(t, g, k);
        let r = remove_all_spec(ls, g, k);
        assert(r == remove_all_spec(t, g, k));
        assert forall|i: int| 0 <= i < r.len() implies ls.contains(#[trigger] r[i]) by {
            assert(t.contains(r[i]));
            let j = choose|j: int| 0 <= j < t.len() && t[j] == r[i];
            if j < q {
                assert(ls[j] == r[i]);
            } else {
                assert(ls[j + 1] == r[i]);
            }
        }
    }
}

} // verus!
