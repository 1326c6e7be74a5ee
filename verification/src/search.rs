//! First and last positions in a range of a sequence where a predicate holds.
use vstd::prelude::*;

verus! {

/// The first index in `[i, end)` where `p` holds.
pub open spec fn first_from<A>(s: Seq<A>, i: int, end: int, p: spec_fn(A) -> bool) -> Option<int>
    decreases end - i,
{
    if i >= end {
        None
    } else if p(s[i]) {
        Some(i)
    } else {
        first_from(s, i + 1, end, p)
    }
}

/// The last index in `[start, j)` where `p` holds.
pub open spec fn last_in<A>(s: Seq<A>, start: int, j: int, p: spec_fn(A) -> bool) -> Option<int>
    decreases j - start,
{
    if j <= start {
        None
    } else if p(s[j - 1]) {
        Some(j - 1)
    } else {
        last_in(s, start, j - 1, p)
    }
}

pub proof fn lemma_first_from_found<A>(s: Seq<A>, i: int, end: int, p: spec_fn(A) -> bool, j: int)
    requires
        i <= j < end,
        p(s[j]),
        forall|k: int| i <= k < j ==> !p(#[trigger] s[k]),
    ensures
        first_from(s, i, end, p) == Some(j),
    decreases j - i,
{
    if i < j {
        lemma_first_from_found(s, i + 1, end, p, j);
    }
}

pub proof fn lemma_first_from_none<A>(s: Seq<A>, i: int, end: int, p: spec_fn(A) -> bool)
    requires
        forall|k: int| i <= k < end ==> !p(#[trigger] s[k]),
    ensures
        first_from(s, i, end, p) == None::<int>,
    decreases end - i,
{
    if i < end {
        lemma_first_from_none(s, i + 1, end, p);
    }
}

pub proof fn lemma_first_from_props<A>(s: Seq<A>, i: int, end: int, p: spec_fn(A) -> bool)
    ensures
        match first_from(s, i, end, p) {
            Some(j) => i <= j < end && p(s[j]) && forall|k: int| i <= k < j ==> !p(#[trigger] s[k]),
            None => forall|k: int| i <= k < end ==> !p(#[trigger] s[k]),
        },
    decreases end - i,
{
    if i < end {
        lemma_first_from_props(s, i + 1, end, p);
    }
}

pub proof fn lemma_last_in_found<A>(s: Seq<A>, start: int, j: int, p: spec_fn(A) -> bool, m: int)
    requires
        start <= m < j,
        p(s[m]),
        forall|k: int| m < k < j ==> !p(#[trigger] s[k]),
    ensures
        last_in(s, start, j, p) == Some(m),
    decreases j - start,
{
    if m < j - 1 {
        lemma_last_in_found(s, start, j - 1, p, m);
    }
}

pub proof fn lemma_last_in_none<A>(s: Seq<A>, start: int, j: int, p: spec_fn(A) -> bool)
    requires
        forall|k: int| start <= k < j ==> !p(#[trigger] s[k]),
    ensures
        last_in(s, start, j, p) == None::<int>,
    decreases j - start,
{
    if start < j {
        lemma_last_in_none(s, start, j - 1, p);
    }
}

pub proof fn lemma_last_in_props<A>(s: Seq<A>, start: int, j: int, p: spec_fn(A) -> bool)
    ensures
        match last_in(s, start, j, p) {
            Some(m) => start <= m < j && p(s[m]) && forall|k: int| m < k < j ==> !p(#[trigger] s[k]),
            None => forall|k: int| start <= k < j ==> !p(#[trigger] s[k]),
        },
    decreases j - start,
{
    if start < j {
        lemma_last_in_props(s, start, j - 1, p);
    }
}

/// Searching depends only on where the predicate holds inside the range.
pub proof fn lemma_first_from_same<A>(s: Seq<A>, t: Seq<A>, i: int, end: int, p: spec_fn(A) -> bool)
    requires
        forall|k: int| i <= k < end ==> p(#[trigger] s[k]) == p(t[k]),
    ensures
        first_from(s, i, end, p) == first_from(t, i, end, p),
    decreases end - i,
{
    if i < end {
        lemma_first_from_same(s, t, i + 1, end, p);
    }
}

/// Inserting an element the predicate rejects, inside the range, moves a later match
/// one place on.
pub proof fn lemma_first_from_insert<A>(
    s: Seq<A>,
    q: int,
    x: A,
    i: int,
    end: int,
    p: spec_fn(A) -> bool,
)
    requires
        0 <= i <= q <= end <= s.len(),
        !p(x),
    ensures
        first_from(s.insert(q, x), i, end + 1, p) == match first_from(s, i, end, p) {
            Some(j) => Some(if j < q { j } else { j + 1 }),
            None => None,
        },
    decreases end - i,
{
    let t = s.insert(q, x);
    s.insert_ensures(q, x);
    if i < q {
        assert(t[i] == s[i]);
        lemma_first_from_insert(s, q, x, i + 1, end, p);
        if p(s[i]) {
            assert(first_from(s, i, end, p) == Some(i));
            assert(first_from(t, i, end + 1, p) == Some(i));
        } else {
            assert(first_from(s, i, end, p) == first_from(s, i + 1, end, p));
            assert(first_from(t, i, end + 1, p) == first_from(t, i + 1, end + 1, p));
        }
    } else {
        assert(t[q] == x);
        lemma_first_from_shift_insert(s, q, x, q, end, p);
        lemma_first_from_props(s, q, end, p);
        assert(first_from(t, q, end + 1, p) == first_from(t, q + 1, end + 1, p));
    }
}

/// Past the inserted element, a search in the longer sequence is the old one moved by
/// one.
pub proof fn lemma_first_from_shift_insert<A>(
    s: Seq<A>,
    q: int,
    x: A,
    i: int,
    end: int,
    p: spec_fn(A) -> bool,
)
    requires
        0 <= q <= i <= end <= s.len(),
    ensures
        first_from(s.insert(q, x), i + 1, end + 1, p) == match first_from(s, i, end, p) {
            Some(j) => Some(j + 1),
            None => None,
        },
    decreases end - i,
{
    let t = s.insert(q, x);
    s.insert_ensures(q, x);
    if i < end {
        assert(t[i + 1] == s[i]);
        lemma_first_from_shift_insert(s, q, x, i + 1, end, p);
    }
}

/// Removing an element the predicate rejects, inside the range, moves a later match one
/// place back.
pub proof fn lemma_first_from_remove<A>(s: Seq<A>, q: int, i: int, end: int, p: spec_fn(A) -> bool)
    requires
        0 <= i <= q < end <= s.len(),
        !p(s[q]),
    ensures
        first_from(s.remove(q), i, end - 1, p) == match first_from(s, i, end, p) {
            Some(j) => Some(if j < q { j } else { j - 1 }),
            None => None,
        },
    decreases end - i,
{
    let t = s.remove(q);
    s.remove_ensures(q);
    if i < q {
        assert(t[i] == s[i]);
        lemma_first_from_remove(s, q, i + 1, end, p);
        if p(s[i]) {
            assert(first_from(s, i, end, p) == Some(i));
            assert(first_from(t, i, end - 1, p) == Some(i));
        } else {
            assert(first_from(s, i, end, p) == first_from(s, i + 1, end, p));
            assert(first_from(t, i, end - 1, p) == first_from(t, i + 1, end - 1, p));
        }
    } else {
        lemma_first_from_shift_remove(s, q, q + 1, end, p);
        lemma_first_from_props(s, q + 1, end, p);
        assert(first_from(s, q, end, p) == first_from(s, q + 1, end, p));
    }
}

/// Past the removed element, a search in the shorter sequence is the old one moved back
/// by one.
pub proof fn lemma_first_from_shift_remove<A>(
    s: Seq<A>,
    q: int,
    i: int,
    end: int,
    p: spec_fn(A) -> bool,
)
    requires
        0 <= q < i <= end <= s.len(),
    ensures
        first_from(s.remove(q), i - 1, end - 1, p) == match first_from(s, i, end, p) {
            Some(j) => Some(j - 1),
            None => None,
        },
    decreases end - i,
{
    let t = s.remove(q);
    s.remove_ensures(q);
    if i < end {
        assert(t[i - 1] == s[i]);
        lemma_first_from_shift_remove(s, q, i + 1, end, p);
    }
}

} // verus!
