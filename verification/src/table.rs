//! The layout of the entry listing: one group per source, sources in order, each
//! group's rows sorted by id, and the columns that carry information.
use vstd::prelude::*;

use crate::model::{AutostartEntry, EntryView, entries_view};
use crate::commands::{truncate, truncate_spec};
use crate::paths::strings_view;
use crate::text::chars_of;

verus! {

broadcast use vstd::seq_lib::group_filter_ensures;

/// `a` comes strictly before `b`, comparing characters by code point (the order of
/// their UTF-8 bytes).
pub open spec fn text_lt(a: Seq<char>, b: Seq<char>) -> bool
    decreases a.len(),
{
    if b.len() == 0 {
        false
    } else if a.len() == 0 {
        true
    } else if a[0] != b[0] {
        (a[0] as u32) < (b[0] as u32)
    } else {
        text_lt(a.drop_first(), b.drop_first())
    }
}

pub proof fn lemma_text_lt_irreflexive(a: Seq<char>)
    ensures
        !text_lt(a, a),
    decreases a.len(),
{
    if a.len() > 0 {
        lemma_text_lt_irreflexive(a.drop_first());
    }
}

pub proof fn lemma_text_lt_asymmetric(a: Seq<char>, b: Seq<char>)
    ensures
        text_lt(a, b) ==> !text_lt(b, a),
    decreases a.len(),
{
    if a.len() > 0 && b.len() > 0 && a[0] == b[0] {
        lemma_text_lt_asymmetric(a.drop_first(), b.drop_first());
    }
}

pub proof fn lemma_text_lt_transitive(a: Seq<char>, b: Seq<char>, c: Seq<char>)
    ensures
        text_lt(a, b) && text_lt(b, c) ==> text_lt(a, c),
    decreases a.len(),
{
    if a.len() > 0 && b.len() > 0 && c.len() > 0 {
        lemma_text_lt_transitive(a.drop_first(), b.drop_first(), c.drop_first());
    }
}

pub proof fn lemma_text_lt_total(a: Seq<char>, b: Seq<char>)
    ensures
        a == b || text_lt(a, b) || text_lt(b, a),
    decreases a.len(),
{
    if a.len() > 0 && b.len() > 0 && a[0] == b[0] {
        lemma_text_lt_total(a.drop_first(), b.drop_first());
        if a.drop_first() == b.drop_first() {
            assert(a =~= seq![a[0]] + a.drop_first());
            assert(b =~= seq![b[0]] + b.drop_first());
        }
    } else if a.len() == 0 && b.len() == 0 {
        assert(a =~= b);
    } else if a.len() > 0 && b.len() > 0 {
        vstd::utf8::char_u32_cast(a[0], a[0] as u32);
        vstd::utf8::char_u32_cast(b[0], b[0] as u32);
        assert(a[0] as u32 != b[0] as u32);
    }
}

/// The order of sources and ids is the dictionary order by code point: a proper prefix
/// comes first, and otherwise the first differing character decides.
pub proof fn law_text_lt(a: Seq<char>, b: Seq<char>)
    ensures
        a.len() < b.len() && b.take(a.len() as int) == a ==> text_lt(a, b),
        b.len() <= a.len() && a.take(b.len() as int) == b ==> !text_lt(a, b),
        forall|i: int|
            0 <= i < a.len() && i < b.len() && a.take(i) == b.take(i) && #[trigger] a[i] != #[trigger] b[i] ==> (
            text_lt(a, b) <==> (a[i] as u32) < (b[i] as u32)),
    decreases a.len(),
{
    if a.len() > 0 && b.len() > 0 {
        law_text_lt(a.drop_first(), b.drop_first());
        let a1 = a.drop_first();
        let b1 = b.drop_first();
        if a.len() < b.len() && b.take(a.len() as int) == a {
            assert(a[0] == b.take(a.len() as int)[0]);
            assert(b1.take(a1.len() as int) =~= a1) by {
                assert forall|k: int| 0 <= k < a1.len() implies #[trigger] b1.take(a1.len() as int)[k] == a1[k] by {
                    assert(b.take(a.len() as int)[k + 1] == a[k + 1]);
                }
            }
        }
        if b.len() <= a.len() && a.take(b.len() as int) == b {
            assert(b[0] == a.take(b.len() as int)[0]);
            assert(a1.take(b1.len() as int) =~= b1) by {
                assert forall|k: int| 0 <= k < b1.len() implies #[trigger] a1.take(b1.len() as int)[k] == b1[k] by {
                    assert(a.take(b.len() as int)[k + 1] == b[k + 1]);
                }
            }
        }
        assert forall|i: int|
            0 <= i < a.len() && i < b.len() && a.take(i) == b.take(i) && #[trigger] a[i] != #[trigger] b[i] implies (
            text_lt(a, b) <==> (a[i] as u32) < (b[i] as u32)) by {
            if i > 0 {
                assert(a[0] == a.take(i)[0] && b[0] == b.take(i)[0]);
                assert(a1.take(i - 1) =~= b1.take(i - 1)) by {
                    assert forall|k: int| 0 <= k < i - 1 implies #[trigger] a1.take(i - 1)[k] == b1.take(i - 1)[k] by {
                        assert(a.take(i)[k + 1] == b.take(i)[k + 1]);
                    }
                }
                assert(a1[i - 1] == a[i] && b1[i - 1] == b[i]);
            }
        }
    } else if b.len() == 0 {
    } else {
        assert(b.take(0) =~= a);
    }
}

/// Whether `a` comes strictly before `b`.
fn chars_lt(a: &Vec<char>, b: &Vec<char>) -> (r: bool)
    ensures
        r == text_lt(a@, b@),
{
    let mut i: usize = 0;
    assert(a@.skip(0) =~= a@);
    assert(b@.skip(0) =~= b@);
    while i < a.len() && i < b.len() && a[i] == b[i]
        invariant
            i <= a.len(),
            i <= b.len(),
            text_lt(a@, b@) == text_lt(a@.skip(i as int), b@.skip(i as int)),
        decreases a.len() - i,
    {
        assert(a@.skip(i as int).drop_first() =~= a@.skip(i + 1));
        assert(b@.skip(i as int).drop_first() =~= b@.skip(i + 1));
        i = i + 1;
    }
    if i == b.len() {
        false
    } else if i == a.len() {
        true
    } else {
        (a[i] as u32) < (b[i] as u32)
    }
}

/// Whether text `a` comes strictly before text `b`.
pub fn str_lt(a: &str, b: &str) -> (r: bool)
    ensures
        r == text_lt(a@, b@),
{
    chars_lt(&chars_of(a), &chars_of(b))
}

/// The rows whose id is `x`, in order.
pub open spec fn with_id(rows: Seq<EntryView>, x: Seq<char>) -> Seq<EntryView> {
    rows.filter(|e: EntryView| e.id == x)
}

/// The entries from source `s` whose id is `x`, in order.
pub open spec fn with_source_id(es: Seq<EntryView>, s: Seq<char>, x: Seq<char>) -> Seq<EntryView> {
    es.filter(|e: EntryView| e.source == s && e.id == x)
}

/// Rows in id order.
pub open spec fn sorted_by_id(rows: Seq<EntryView>) -> bool {
    forall|i: int, j: int| 0 <= i < j < rows.len() ==> !text_lt(#[trigger] rows[j].id, #[trigger] rows[i].id)
}

/// The rows of source `s`: its entries sorted by id, entries with the same id kept in
/// the order they came in.
pub open spec fn group_rows_ok(rows: Seq<EntryView>, es: Seq<EntryView>, s: Seq<char>) -> bool {
    &&& sorted_by_id(rows)
    &&& forall|x: Seq<char>| #[trigger] with_id(rows, x) == with_source_id(es, s, x)
}

/// Some row shows a name other than its id.
pub open spec fn shows_name(rows: Seq<EntryView>) -> bool {
    exists|k: int| 0 <= k < rows.len() && #[trigger] rows[k].display_name != rows[k].id
}

/// Some row has a command that is neither empty nor its id nor its name.
pub open spec fn shows_command(rows: Seq<EntryView>) -> bool {
    exists|k: int|
        0 <= k < rows.len() && #[trigger] rows[k].command != rows[k].id && rows[k].command
            != rows[k].display_name && rows[k].command.len() > 0
}

/// Some table is for source `y`.
pub open spec fn has_group(gs: Seq<GroupView>, y: Seq<char>) -> bool {
    exists|i: int| 0 <= i < gs.len() && #[trigger] gs[i].source == y
}

/// Some of the first `n` entries come from source `y`.
pub open spec fn has_source(es: Seq<EntryView>, n: int, y: Seq<char>) -> bool {
    exists|k: int| 0 <= k < n && #[trigger] es[k].source == y
}

/// Some string of `v` is `y`.
pub open spec fn has_text(v: Seq<String>, y: Seq<char>) -> bool {
    exists|i: int| 0 <= i < v.len() && #[trigger] v[i]@ == y
}

/// One table: a source, its rows, and which optional columns it shows.
pub struct TableGroup {
    pub source: String,
    pub rows: Vec<AutostartEntry>,
    pub show_name: bool,
    pub show_command: bool,
}

/// A table, mathematically.
pub struct GroupView {
    pub source: Seq<char>,
    pub rows: Seq<EntryView>,
    pub show_name: bool,
    pub show_command: bool,
}

/// The views of a list of tables.
pub open spec fn groups_view(gs: Seq<TableGroup>) -> Seq<GroupView> {
    gs.map_values(
        |g: TableGroup|
            GroupView {
                source: g.source@,
                rows: entries_view(g.rows@),
                show_name: g.show_name,
                show_command: g.show_command,
            },
    )
}

/// The tables of a listing: exactly one per source of the entries, in source order,
/// each holding that source's entries sorted by id and showing the name and command
/// columns only when some row needs them.
pub open spec fn groups_ok(gs: Seq<GroupView>, es: Seq<EntryView>) -> bool {
    &&& forall|i: int, j: int| 0 <= i < j < gs.len() ==> text_lt(#[trigger] gs[i].source, #[trigger] gs[j].source)
    &&& forall|y: Seq<char>| #![trigger has_group(gs, y)] #![trigger has_source(es, es.len() as int, y)]
        has_group(gs, y) <==> has_source(es, es.len() as int, y)
    &&& forall|i: int|
        0 <= i < gs.len() ==> {
            &&& group_rows_ok(#[trigger] gs[i].rows, es, gs[i].source)
            &&& gs[i].show_name == shows_name(gs[i].rows)
            &&& gs[i].show_command == shows_command(gs[i].rows)
        }
}

proof fn lemma_filter_insert(r: Seq<EntryView>, p: int, x: EntryView, pred: spec_fn(EntryView) -> bool)
    requires
        0 <= p <= r.len(),
    ensures
        r.insert(p, x).filter(pred) == r.take(p).filter(pred) + (if pred(x) { seq![x] } else { seq![] })
            + r.skip(p).filter(pred),
        r.filter(pred) == r.take(p).filter(pred) + r.skip(p).filter(pred),
{
    assert(r.insert(p, x) =~= r.take(p) + seq![x] + r.skip(p));
    assert(r =~= r.take(p) + r.skip(p));
    reveal_with_fuel(Seq::<_>::filter, 2);
    assert(seq![x].drop_last() =~= Seq::<EntryView>::empty());
    assert(seq![x].filter(pred) =~= (if pred(x) { seq![x] } else { seq![] }));
}

/// Insert `e` into rows sorted by id, after every row whose id is not greater.
fn insert_row(rows: &mut Vec<AutostartEntry>, e: AutostartEntry)
    requires
        sorted_by_id(entries_view(old(rows)@)),
    ensures
        sorted_by_id(entries_view(final(rows)@)),
        forall|x: Seq<char>|
            #[trigger] with_id(entries_view(final(rows)@), x) == if e@.id == x {
                with_id(entries_view(old(rows)@), x).push(e@)
            } else {
                with_id(entries_view(old(rows)@), x)
            },
{
    let ghost r = entries_view(rows@);
    let ghost ev = e@;
    let key = chars_of(e.id.as_str());
    let mut p = rows.len();
    while p > 0 && chars_lt(&key, &chars_of(rows[p - 1].id.as_str()))
        invariant
            p <= rows.len(),
            r == entries_view(rows@),
            key@ == ev.id,
            forall|j: int| p <= j < rows.len() ==> text_lt(ev.id, #[trigger] r[j].id),
        decreases p,
    {
        p = p - 1;
    }
    proof {
        if p > 0 {
            lemma_text_lt_total(ev.id, r[p - 1].id);
        }
    }
    rows.insert(p, e);
    proof {
        let t = entries_view(rows@);
        assert(t =~= r.insert(p as int, ev));
        r.insert_ensures(p as int, ev);
        assert forall|i: int, j: int| 0 <= i < j < t.len() implies !text_lt(#[trigger] t[j].id, #[trigger] t[i].id) by {
            if j < p {
                assert(t[i] == r[i] && t[j] == r[j]);
            } else if j == p {
                assert(t[i] == r[i]);
                assert(t[j] == ev);
                assert(!text_lt(ev.id, r[p - 1].id));
                if i < p - 1 {
                    assert(!text_lt(r[p - 1].id, r[i].id));
                    lemma_text_lt_total(r[p - 1].id, r[i].id);
                    lemma_text_lt_transitive(ev.id, r[i].id, r[p - 1].id);
                }
            } else if i == p {
                assert(t[i] == ev);
                assert(t[j] == r[j - 1]);
                assert(text_lt(ev.id, r[j - 1].id));
                lemma_text_lt_asymmetric(ev.id, r[j - 1].id);
            } else if i < p {
                assert(t[i] == r[i] && t[j] == r[j - 1]);
            } else {
                assert(t[i] == r[i - 1] && t[j] == r[j - 1]);
            }
        }
        assert forall|x: Seq<char>| #[trigger] with_id(t, x) == if ev.id == x {
            with_id(r, x).push(ev)
        } else {
            with_id(r, x)
        } by {
            let pred = |e: EntryView| e.id == x;
            lemma_filter_insert(r, p as int, ev, pred);
            if ev.id == x {
                assert forall|j: int| 0 <= j < r.skip(p as int).len() implies !pred(#[trigger] r.skip(p as int)[j]) by {
                    assert(r.skip(p as int)[j] == r[p + j]);
                    lemma_text_lt_irreflexive(x);
                }
                r.skip(p as int).lemma_all_neg_filter_empty(pred);
                assert(r.take(p as int).filter(pred) + seq![ev] + Seq::<EntryView>::empty() =~= (r.take(p as int).filter(pred) + Seq::<EntryView>::empty()).push(ev));
            } else {
                assert(r.take(p as int).filter(pred) + Seq::<EntryView>::empty() =~= r.take(p as int).filter(pred));
            }
        }
    }
}

/// The rows of source `s`: its entries, sorted by id with ties in input order.
pub fn group_rows(entries: &Vec<AutostartEntry>, s: &str) -> (r: Vec<AutostartEntry>)
    ensures
        group_rows_ok(entries_view(r@), entries_view(entries@), s@),
{
    let ghost es = entries_view(entries@);
    let key = s.to_owned();
    let mut rows: Vec<AutostartEntry> = Vec::new();
    let mut k: usize = 0;
    proof {
        assert forall|x: Seq<char>| #[trigger] with_id(entries_view(rows@), x) == with_source_id(es.take(0), s@, x) by {
            reveal_with_fuel(Seq::<_>::filter, 1);
            assert(entries_view(rows@) =~= Seq::<EntryView>::empty());
            assert(es.take(0) =~= Seq::<EntryView>::empty());
        }
    }
    while k < entries.len()
        invariant
            k <= entries.len(),
            es == entries_view(entries@),
            key@ == s@,
            sorted_by_id(entries_view(rows@)),
            forall|x: Seq<char>| #[trigger] with_id(entries_view(rows@), x) == with_source_id(es.take(k as int), s@, x),
        decreases entries.len() - k,
    {
        let ghost before = entries_view(rows@);
        proof {
            assert(es.take(k + 1).drop_last() =~= es.take(k as int));
        }
        if entries[k].source == key {
            let e = entries[k].duplicate();
            insert_row(&mut rows, e);
        }
        proof {
            assert forall|x: Seq<char>| #[trigger] with_id(entries_view(rows@), x) == with_source_id(es.take(k + 1), s@, x) by {
                reveal_with_fuel(Seq::<_>::filter, 1);
                assert(es.take(k + 1).last() == es[k as int]);
                assert(with_id(before, x) == with_source_id(es.take(k as int), s@, x));
            }
        }
        k = k + 1;
    }
    assert(es.take(entries.len() as int) =~= es);
    rows
}

/// Whether some row shows a name other than its id.
fn any_shows_name(rows: &Vec<AutostartEntry>) -> (r: bool)
    ensures
        r == shows_name(entries_view(rows@)),
{
    let ghost rv = entries_view(rows@);
    let mut k: usize = 0;
    while k < rows.len()
        invariant
            k <= rows.len(),
            rv == entries_view(rows@),
            forall|j: int| 0 <= j < k ==> #[trigger] rv[j].display_name == rv[j].id,
        decreases rows.len() - k,
    {
        if rows[k].display_name != rows[k].id {
            assert(rv[k as int].display_name != rv[k as int].id);
            return true;
        }
        k = k + 1;
    }
    false
}

/// Whether some row has a command that is neither empty nor its id nor its name.
fn any_shows_command(rows: &Vec<AutostartEntry>) -> (r: bool)
    ensures
        r == shows_command(entries_view(rows@)),
{
    let ghost rv = entries_view(rows@);
    let mut k: usize = 0;
    while k < rows.len()
        invariant
            k <= rows.len(),
            rv == entries_view(rows@),
            forall|j: int|
                0 <= j < k ==> !(#[trigger] rv[j].command != rv[j].id && rv[j].command != rv[j].display_name
                    && rv[j].command.len() > 0),
        decreases rows.len() - k,
    {
        let e = &rows[k];
        if e.command != e.id && e.command != e.display_name && !e.command.as_str().is_empty() {
            assert(rv[k as int].command != rv[k as int].id);
            return true;
        }
        k = k + 1;
    }
    false
}

/// The distinct sources of the entries, in order.
fn sorted_sources(entries: &Vec<AutostartEntry>) -> (r: Vec<String>)
    ensures
        forall|i: int, j: int| 0 <= i < j < r.len() ==> text_lt(#[trigger] r@[i]@, #[trigger] r@[j]@),
        forall|y: Seq<char>| #![trigger has_text(r@, y)] #![trigger has_source(entries_view(entries@), entries.len() as int, y)]
            has_text(r@, y) <==> has_source(entries_view(entries@), entries.len() as int, y),
{
    let ghost es = entries_view(entries@);
    let mut out: Vec<String> = Vec::new();
    let mut k: usize = 0;
    while k < entries.len()
        invariant
            k <= entries.len(),
            forall|i: int, j: int| 0 <= i < j < out.len() ==> text_lt(#[trigger] out@[i]@, #[trigger] out@[j]@),
            es == entries_view(entries@),
            forall|y: Seq<char>| #![trigger has_text(out@, y)] #![trigger has_source(es, k as int, y)]
                has_text(out@, y) <==> has_source(es, k as int, y),
        decreases entries.len() - k,
    {
        let s = &entries[k].source;
        let ghost sv = s@;
        let key = chars_of(s.as_str());
        let mut q: usize = 0;
        while q < out.len() && chars_lt(&chars_of(out[q].as_str()), &key)
            invariant
                q <= out.len(),
                key@ == sv,
                forall|j: int| 0 <= j < q ==> text_lt(#[trigger] out@[j]@, sv),
            decreases out.len() - q,
        {
            q = q + 1;
        }
        let ghost before = out@;
        if q < out.len() && out[q] == *s {
            proof {
                assert forall|y: Seq<char>| #![trigger has_text(out@, y)] #![trigger has_source(es, k + 1, y)]
                    has_text(out@, y) <==> has_source(es, k + 1, y) by {
                    if y == sv {
                        assert(out@[q as int]@ == y);
                        assert(es[k as int].source == y);
                    } else {
                        if has_source(es, k + 1, y) {
                            let m = choose|m: int| 0 <= m < k + 1 && #[trigger] es[m].source == y;
                            assert(m < k);
                            assert(has_source(es, k as int, y));
                        }
                        if has_text(out@, y) {
                            assert(has_source(es, k as int, y));
                            let m = choose|m: int| 0 <= m < k && #[trigger] es[m].source == y;
                            assert(es[m].source == y);
                        }
                    }
                }
            }
        } else {
            proof {
                if q < out.len() {
                    lemma_text_lt_total(out@[q as int]@, sv);
                }
            }
            out.insert(q, s.clone());
            proof {
                let t = out@;
                before.insert_ensures(q as int, t[q as int]);
                assert(t =~= before.insert(q as int, t[q as int]));
                assert forall|i: int, j: int| 0 <= i < j < t.len() implies text_lt(#[trigger] t[i]@, #[trigger] t[j]@) by {
                    if j < q {
                        assert(t[i] == before[i] && t[j] == before[j]);
                    } else if j == q {
                        assert(t[i] == before[i]);
                    } else if i == q {
                        assert(t[j] == before[j - 1]);
                        if j - 1 > q {
                            lemma_text_lt_transitive(sv, before[q as int]@, before[j - 1]@);
                        }
                    } else if i < q {
                        assert(t[i] == before[i] && t[j] == before[j - 1]);
                    } else {
                        assert(t[i] == before[i - 1] && t[j] == before[j - 1]);
                    }
                }
                assert forall|y: Seq<char>| #![trigger has_text(t, y)] #![trigger has_source(es, k + 1, y)]
                    has_text(t, y) <==> has_source(es, k + 1, y) by {
                    if y == sv {
                        assert(t[q as int]@ == y);
                        assert(es[k as int].source == y);
                    } else {
                        if has_text(t, y) {
                            let i = choose|i: int| 0 <= i < t.len() && #[trigger] t[i]@ == y;
                            if i < q {
                                assert(before[i]@ == y);
                            } else {
                                assert(i > q);
                                assert(before[i - 1]@ == y);
                            }
                            assert(has_text(before, y));
                            assert(has_source(es, k as int, y));
                            let m = choose|m: int| 0 <= m < k && #[trigger] es[m].source == y;
                            assert(es[m].source == y);
                        }
                        if has_source(es, k + 1, y) {
                            let m = choose|m: int| 0 <= m < k + 1 && #[trigger] es[m].source == y;
                            assert(m < k);
                            assert(has_source(es, k as int, y));
                            assert(has_text(before, y));
                            let i = choose|i: int| 0 <= i < before.len() && #[trigger] before[i]@ == y;
                            if i < q {
                                assert(t[i]@ == y);
                            } else {
                                assert(t[i + 1]@ == y);
                            }
                        }
                    }
                }
            }
        }
        k = k + 1;
    }
    out
}

/// Group entries into one table per source, in source order.
pub fn table_groups(entries: &Vec<AutostartEntry>) -> (r: Vec<TableGroup>)
    ensures
        groups_ok(groups_view(r@), entries_view(entries@)),
        forall|i: int| 0 <= i < r.len() ==> (#[trigger] r@[i].show_command <==> exists|k: int|
            0 <= k < r@[i].rows.len() && #[trigger] r@[i].rows@[k].command@ != r@[i].rows@[k].id@
                && r@[i].rows@[k].command@ != r@[i].rows@[k].display_name@ && r@[i].rows@[k].command@.len() > 0),
        forall|i: int| 0 <= i < r.len() ==> (#[trigger] r@[i].show_name <==> exists|k: int|
            0 <= k < r@[i].rows.len() && #[trigger] r@[i].rows@[k].display_name@ != r@[i].rows@[k].id@),
{
    let ghost es = entries_view(entries@);
    let sources = sorted_sources(entries);
    let mut out: Vec<TableGroup> = Vec::new();
    let mut i: usize = 0;
    while i < sources.len()
        invariant
            i <= sources.len(),
            es == entries_view(entries@),
            out.len() == i,
            forall|a: int| 0 <= a < i ==> (#[trigger] groups_view(out@)[a]).source == sources@[a]@,
            forall|a: int|
                0 <= a < i ==> {
                    &&& group_rows_ok(#[trigger] groups_view(out@)[a].rows, es, groups_view(out@)[a].source)
                    &&& groups_view(out@)[a].show_name == shows_name(groups_view(out@)[a].rows)
                    &&& groups_view(out@)[a].show_command == shows_command(groups_view(out@)[a].rows)
                },
        decreases sources.len() - i,
    {
        let rows = group_rows(entries, sources[i].as_str());
        let show_name = any_shows_name(&rows);
        let show_command = any_shows_command(&rows);
        let ghost before = out@;
        out.push(TableGroup { source: sources[i].clone(), rows, show_name, show_command });
        proof {
            assert forall|a: int| 0 <= a < i + 1 implies (#[trigger] groups_view(out@)[a]).source == sources@[a]@ by {
                if a < i {
                    assert(groups_view(out@)[a] == groups_view(before)[a]);
                }
            }
            assert forall|a: int|
                0 <= a < i + 1 implies {
                    &&& group_rows_ok(#[trigger] groups_view(out@)[a].rows, es, groups_view(out@)[a].source)
                    &&& groups_view(out@)[a].show_name == shows_name(groups_view(out@)[a].rows)
                    &&& groups_view(out@)[a].show_command == shows_command(groups_view(out@)[a].rows)
                } by {
                if a < i {
                    assert(groups_view(out@)[a] == groups_view(before)[a]);
                }
            }
        }
        i = i + 1;
    }
    proof {
        let gs = groups_view(out@);
        assert forall|a: int, b: int| 0 <= a < b < gs.len() implies text_lt(#[trigger] gs[a].source, #[trigger] gs[b].source) by {
            assert(gs[a].source == sources@[a]@);
            assert(gs[b].source == sources@[b]@);
        }
        assert forall|y: Seq<char>| #![trigger has_group(gs, y)] #![trigger has_source(es, es.len() as int, y)]
            has_group(gs, y) <==> has_source(es, es.len() as int, y) by {
            if has_group(gs, y) {
                let a = choose|a: int| 0 <= a < gs.len() && #[trigger] gs[a].source == y;
                assert(sources@[a]@ == y);
                assert(has_text(sources@, y));
            }
            if has_source(es, es.len() as int, y) {
                assert(has_text(sources@, y));
                let a = choose|a: int| 0 <= a < sources.len() && #[trigger] sources@[a]@ == y;
                assert(gs[a].source == y);
            }
        }
        law_informative_columns(gs, es);
        assert forall|i: int, k: int| 0 <= i < out.len() && 0 <= k < out@[i].rows.len() implies #[trigger] gs[i].rows[k]
            == out@[i].rows@[k]@ by {
            assert(gs[i].rows == entries_view(out@[i].rows@));
        }
        assert forall|i: int| 0 <= i < out.len() implies (#[trigger] out@[i].show_command <==> exists|k: int|
            0 <= k < out@[i].rows.len() && #[trigger] out@[i].rows@[k].command@ != out@[i].rows@[k].id@
                && out@[i].rows@[k].command@ != out@[i].rows@[k].display_name@ && out@[i].rows@[k].command@.len()
                > 0) by {
            let rs = out@[i].rows@;
            assert(gs[i].rows == entries_view(rs));
            assert(gs[i].show_command == out@[i].show_command);
            if out@[i].show_command {
                let k = choose|k: int| 0 <= k < gs[i].rows.len() && #[trigger] gs[i].rows[k].command != gs[i].rows[k].id
                    && gs[i].rows[k].command != gs[i].rows[k].display_name && gs[i].rows[k].command.len() > 0;
                assert(gs[i].rows[k] == rs[k]@);
                assert(rs[k].command@ != rs[k].id@ && rs[k].command@ != rs[k].display_name@);
            }
            if exists|k: int| 0 <= k < rs.len() && #[trigger] rs[k].command@ != rs[k].id@
                && rs[k].command@ != rs[k].display_name@ && rs[k].command@.len() > 0 {
                let k = choose|k: int| 0 <= k < rs.len() && #[trigger] rs[k].command@ != rs[k].id@
                    && rs[k].command@ != rs[k].display_name@ && rs[k].command@.len() > 0;
                assert(gs[i].rows[k] == rs[k]@);
                assert(gs[i].rows[k].command != gs[i].rows[k].id && gs[i].rows[k].command != gs[i].rows[k].display_name
                    && gs[i].rows[k].command.len() > 0);
            }
        }
        assert forall|i: int| 0 <= i < out.len() implies (#[trigger] out@[i].show_name <==> exists|k: int|
            0 <= k < out@[i].rows.len() && #[trigger] out@[i].rows@[k].display_name@ != out@[i].rows@[k].id@) by {
            let rs = out@[i].rows@;
            assert(gs[i].rows == entries_view(rs));
            assert(gs[i].show_name == out@[i].show_name);
            if out@[i].show_name {
                let k = choose|k: int| 0 <= k < gs[i].rows.len() && #[trigger] gs[i].rows[k].display_name != gs[i].rows[k].id;
                assert(gs[i].rows[k] == rs[k]@);
                assert(rs[k].display_name@ != rs[k].id@);
            }
            if exists|k: int| 0 <= k < rs.len() && #[trigger] rs[k].display_name@ != rs[k].id@ {
                let k = choose|k: int| 0 <= k < rs.len() && #[trigger] rs[k].display_name@ != rs[k].id@;
                assert(gs[i].rows[k] == rs[k]@);
                assert(gs[i].rows[k].display_name != gs[i].rows[k].id);
            }
        }
    }
    out
}

/// The width the command column is cut to.
pub const COMMAND_WIDTH: usize = 50;

/// The mark of an entry's state: a filled circle when enabled, a hollow one when not.
pub open spec fn mark_spec(enabled: bool) -> Seq<char> {
    if enabled {
        "\u{25cf}"@
    } else {
        "\u{25cb}"@
    }
}

/// The header of a table: a blank column for the mark, `ID`, then `NAME` and `COMMAND`
/// when shown.
pub open spec fn header_cells_spec(show_name: bool, show_command: bool) -> Seq<Seq<char>> {
    let base = seq![""@, "ID"@];
    let with_name = if show_name {
        base.push("NAME"@)
    } else {
        base
    };
    if show_command {
        with_name.push("COMMAND"@)
    } else {
        with_name
    }
}

/// The cells of an entry's row: its mark, its id, then its name and its command cut to
/// [`COMMAND_WIDTH`] characters when shown.
pub open spec fn row_cells_spec(e: EntryView, show_name: bool, show_command: bool) -> Seq<Seq<char>> {
    let base = seq![mark_spec(e.enabled), e.id];
    let with_name = if show_name {
        base.push(e.display_name)
    } else {
        base
    };
    if show_command {
        with_name.push(truncate_spec(e.command, COMMAND_WIDTH as nat))
    } else {
        with_name
    }
}

/// The header cells of a table.
pub fn header_cells(group: &TableGroup) -> (r: Vec<String>)
    ensures
        strings_view(r@) == header_cells_spec(group.show_name, group.show_command),
{
    let mut r: Vec<String> = Vec::new();
    r.push("".to_owned());
    r.push("ID".to_owned());
    if group.show_name {
        r.push("NAME".to_owned());
    }
    if group.show_command {
        r.push("COMMAND".to_owned());
    }
    assert(strings_view(r@) =~= header_cells_spec(group.show_name, group.show_command));
    r
}

/// The cells of an entry's row in a table with the given columns.
pub fn row_cells(entry: &AutostartEntry, show_name: bool, show_command: bool) -> (r: Vec<String>)
    ensures
        strings_view(r@) == row_cells_spec(entry@, show_name, show_command),
{
    let mut r: Vec<String> = Vec::new();
    if entry.enabled {
        r.push("\u{25cf}".to_owned());
    } else {
        r.push("\u{25cb}".to_owned());
    }
    r.push(entry.id.clone());
    if show_name {
        r.push(entry.display_name.clone());
    }
    if show_command {
        r.push(truncate(entry.command.as_str(), COMMAND_WIDTH));
    }
    assert(strings_view(r@) =~= row_cells_spec(entry@, show_name, show_command));
    r
}

/// A table shows the command column exactly when some row's command is not empty and
/// differs from both the row's id and its name, and the name column exactly when some
/// row's name differs from its id: a column that would only repeat the id or the name,
/// or stay empty, is left out.
pub proof fn law_informative_columns(gs: Seq<GroupView>, es: Seq<EntryView>)
    requires
        groups_ok(gs, es),
    ensures
        forall|i: int| 0 <= i < gs.len() ==> (#[trigger] gs[i].show_command <==> exists|k: int|
            0 <= k < gs[i].rows.len() && #[trigger] gs[i].rows[k].command != gs[i].rows[k].id
                && gs[i].rows[k].command != gs[i].rows[k].display_name && gs[i].rows[k].command.len() > 0),
        forall|i: int| 0 <= i < gs.len() ==> (#[trigger] gs[i].show_name <==> exists|k: int|
            0 <= k < gs[i].rows.len() && #[trigger] gs[i].rows[k].display_name != gs[i].rows[k].id),
{
    assert forall|i: int| 0 <= i < gs.len() implies (#[trigger] gs[i].show_command <==> exists|k: int|
        0 <= k < gs[i].rows.len() && #[trigger] gs[i].rows[k].command != gs[i].rows[k].id
            && gs[i].rows[k].command != gs[i].rows[k].display_name && gs[i].rows[k].command.len() > 0) by {
        assert(group_rows_ok(gs[i].rows, es, gs[i].source));
    }
    assert forall|i: int| 0 <= i < gs.len() implies (#[trigger] gs[i].show_name <==> exists|k: int|
        0 <= k < gs[i].rows.len() && #[trigger] gs[i].rows[k].display_name != gs[i].rows[k].id) by {
        assert(group_rows_ok(gs[i].rows, es, gs[i].source));
    }
}

} // verus!
