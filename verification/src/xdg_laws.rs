//! What the XDG provider promises: a new entry reads back, and is listed once, as it
//! was written; disabling hides an entry and enabling shows it again without touching
//! its other fields, and doing either twice is doing it once; an edit rewrites only the
//! first file that holds the entry; and when several directories hold the same id, the
//! first one wins, and removing it uncovers the next.
use vstd::prelude::*;

use crate::desktop_file::{LineView, get_spec, main_group, parse_spec, render, set_spec, text_of};
use crate::desktop_laws::{
    ends_cr, lemma_group_wf, lemma_pair_wf, lemma_parsed_wf_unless_cr, lemma_remove_all_lines_from, lemma_set_lines_from, lemma_set_wf, line_wf, lines_wf,
    law_parse_of_text, law_get_after_remove_all, law_get_after_set, law_remove_all_idempotent,
    law_remove_all_keeps_other_keys, law_remove_all_undoes_set, law_set_idempotent,
    law_set_keeps_other_keys,
};
use crate::model::{EntryView, Scope};
use crate::search::{first_from, lemma_first_from_found, lemma_first_from_props};
use crate::paths::{join_spec, segments};
use crate::text::is_ws;
use crate::xdg::{
    desktop_id_spec, desktop_suffix, system_dirs_spec, user_dir_spec, is_held, toggle_fs, toggled_text, entry_spec, field, key_comment, key_exec, key_hidden, key_icon,
    key_name, key_type, merge_state, new_entry_lines, toggled_lines, value_application, value_true,
};

verus! {

/// The entry fields a desktop file determines, apart from id, source and scope.
pub open spec fn same_fields(a: EntryView, b: EntryView) -> bool {
    &&& a.display_name == b.display_name
    &&& a.description == b.description
    &&& a.command == b.command
    &&& a.icon == b.icon
}

proof fn lemma_keys_differ()
    ensures
        key_type() != key_name(),
        key_type() != key_exec(),
        key_type() != key_icon(),
        key_type() != key_comment(),
        key_type() != key_hidden(),
        key_name() != key_exec(),
        key_name() != key_icon(),
        key_name() != key_comment(),
        key_name() != key_hidden(),
        key_exec() != key_icon(),
        key_exec() != key_comment(),
        key_exec() != key_hidden(),
        key_icon() != key_comment(),
        key_icon() != key_hidden(),
        key_comment() != key_hidden(),
{
    assert(key_type()[0] != key_name()[0]);
    assert(key_type()[0] != key_exec()[0]);
    assert(key_type()[0] != key_icon()[0]);
    assert(key_type()[0] != key_comment()[0]);
    assert(key_type()[0] != key_hidden()[0]);
    assert(key_name()[0] != key_exec()[0]);
    assert(key_name()[0] != key_icon()[0]);
    assert(key_name()[0] != key_comment()[0]);
    assert(key_name()[0] != key_hidden()[0]);
    assert(key_exec()[0] != key_icon()[0]);
    assert(key_exec()[0] != key_comment()[0]);
    assert(key_exec()[0] != key_hidden()[0]);
    assert(key_icon()[0] != key_comment()[0]);
    assert(key_icon()[0] != key_hidden()[0]);
    assert(key_comment()[0] != key_hidden()[0]);
}

/// Setting `k` in the main group keeps the field `f` when `f` is another key.
proof fn lemma_keep(ls: Seq<LineView>, k: Seq<char>, v: Seq<char>, f: Seq<char>)
    requires
        k != f,
    ensures
        field(set_spec(ls, main_group(), k, v), f) == field(ls, f),
{
    law_set_keeps_other_keys(ls, main_group(), k, v, main_group(), f);
}

/// A new entry's file, read back, gives the entry's name, description, command, icon
/// and enabled state.
pub proof fn law_new_entry_reads_back(e: EntryView, id: Seq<char>, source: Seq<char>, scope: Scope)
    ensures
        same_fields(entry_spec(id, new_entry_lines(e), source, scope), e),
        entry_spec(id, new_entry_lines(e), source, scope).enabled == e.enabled,
{
    lemma_keys_differ();
    let g = main_group();
    let l0 = Seq::<LineView>::empty();
    assert(get_spec(l0, g, key_comment()) is None);
    assert(get_spec(l0, g, key_icon()) is None);
    assert(get_spec(l0, g, key_hidden()) is None);
    let l1 = set_spec(l0, g, key_type(), value_application());
    lemma_keep(l0, key_type(), value_application(), key_comment());
    lemma_keep(l0, key_type(), value_application(), key_icon());
    lemma_keep(l0, key_type(), value_application(), key_hidden());
    let l2 = set_spec(l1, g, key_name(), e.display_name);
    law_get_after_set(l1, g, key_name(), e.display_name);
    lemma_keep(l1, key_name(), e.display_name, key_comment());
    lemma_keep(l1, key_name(), e.display_name, key_icon());
    lemma_keep(l1, key_name(), e.display_name, key_hidden());
    let l3 = set_spec(l2, g, key_exec(), e.command);
    law_get_after_set(l2, g, key_exec(), e.command);
    lemma_keep(l2, key_exec(), e.command, key_name());
    lemma_keep(l2, key_exec(), e.command, key_comment());
    lemma_keep(l2, key_exec(), e.command, key_icon());
    lemma_keep(l2, key_exec(), e.command, key_hidden());
    let l4 = match e.icon {
        Some(i) => set_spec(l3, g, key_icon(), i),
        None => l3,
    };
    if let Some(i) = e.icon {
        law_get_after_set(l3, g, key_icon(), i);
        lemma_keep(l3, key_icon(), i, key_name());
        lemma_keep(l3, key_icon(), i, key_exec());
        lemma_keep(l3, key_icon(), i, key_comment());
        lemma_keep(l3, key_icon(), i, key_hidden());
    }
    let l5 = match e.description {
        Some(d) => set_spec(l4, g, key_comment(), d),
        None => l4,
    };
    if let Some(d) = e.description {
        law_get_after_set(l4, g, key_comment(), d);
        lemma_keep(l4, key_comment(), d, key_name());
        lemma_keep(l4, key_comment(), d, key_exec());
        lemma_keep(l4, key_comment(), d, key_icon());
        lemma_keep(l4, key_comment(), d, key_hidden());
    }
    if !e.enabled {
        law_get_after_set(l5, g, key_hidden(), value_true());
        lemma_keep(l5, key_hidden(), value_true(), key_name());
        lemma_keep(l5, key_hidden(), value_true(), key_exec());
        lemma_keep(l5, key_hidden(), value_true(), key_icon());
        lemma_keep(l5, key_hidden(), value_true(), key_comment());
    }
}

/// Disabling an entry hides it and leaves its other fields as they were.
pub proof fn law_disable_hides(ls: Seq<LineView>, id: Seq<char>, source: Seq<char>, scope: Scope)
    ensures
        !entry_spec(id, toggled_lines(ls, false), source, scope).enabled,
        same_fields(entry_spec(id, toggled_lines(ls, false), source, scope), entry_spec(id, ls, source, scope)),
{
    lemma_keys_differ();
    law_get_after_set(ls, main_group(), key_hidden(), value_true());
    lemma_keep(ls, key_hidden(), value_true(), key_name());
    lemma_keep(ls, key_hidden(), value_true(), key_exec());
    lemma_keep(ls, key_hidden(), value_true(), key_icon());
    lemma_keep(ls, key_hidden(), value_true(), key_comment());
}

/// Enabling an entry shows it, and leaves its other fields as they were.
pub proof fn law_enable_shows(ls: Seq<LineView>, id: Seq<char>, source: Seq<char>, scope: Scope)
    ensures
        entry_spec(id, toggled_lines(ls, true), source, scope).enabled,
        same_fields(entry_spec(id, toggled_lines(ls, true), source, scope), entry_spec(id, ls, source, scope)),
{
    lemma_keys_differ();
    let g = main_group();
    law_get_after_remove_all(ls, g, key_hidden());
    law_remove_all_keeps_other_keys(ls, g, key_hidden(), g, key_name());
    law_remove_all_keeps_other_keys(ls, g, key_hidden(), g, key_exec());
    law_remove_all_keeps_other_keys(ls, g, key_hidden(), g, key_icon());
    law_remove_all_keeps_other_keys(ls, g, key_hidden(), g, key_comment());
}

/// Enabling an entry that was just disabled gives back its file exactly, when the file
/// has a main group and no `Hidden` key in it.
pub proof fn law_enable_undoes_disable(ls: Seq<LineView>)
    requires
        crate::desktop_file::group_range_spec(ls, main_group()) is Some,
        crate::desktop_file::key_index(ls, main_group(), key_hidden()) is None,
    ensures
        toggled_lines(toggled_lines(ls, false), true) == ls,
{
    law_remove_all_undoes_set(ls, main_group(), key_hidden(), value_true());
}

/// Enabling twice is enabling once, and so is disabling twice.
pub proof fn law_toggle_idempotent(ls: Seq<LineView>, enabled: bool)
    ensures
        toggled_lines(toggled_lines(ls, enabled), enabled) == toggled_lines(ls, enabled),
{
    if enabled {
        law_remove_all_idempotent(ls, main_group(), key_hidden());
    } else {
        law_set_idempotent(ls, main_group(), key_hidden(), value_true());
    }
}

/// The file at index `i` is a readable `.desktop` file with id `x`.
pub open spec fn readable_with_id(fs: Seq<(Seq<char>, Option<Seq<char>>)>, i: int, x: Seq<char>) -> bool {
    desktop_id_spec(fs[i].0) == Some(x) && fs[i].1 is Some
}

/// The entry `e` is read from the first readable file with its id.
pub open spec fn listed_from_first(
    fs: Seq<(Seq<char>, Option<Seq<char>>)>,
    e: EntryView,
    source: Seq<char>,
    scope: Scope,
) -> bool {
    exists|i: int| {
        &&& 0 <= i < fs.len()
        &&& #[trigger] readable_with_id(fs, i, e.id)
        &&& e == entry_spec(e.id, parse_spec(fs[i].1.unwrap()), source, scope)
        &&& forall|j: int| 0 <= j < i ==> !readable_with_id(fs, j, e.id)
    }
}

proof fn lemma_listed_extend(
    fs: Seq<(Seq<char>, Option<Seq<char>>)>,
    e: EntryView,
    source: Seq<char>,
    scope: Scope,
)
    requires
        fs.len() > 0,
        listed_from_first(fs.drop_last(), e, source, scope),
    ensures
        listed_from_first(fs, e, source, scope),
{
    let init = fs.drop_last();
    let i = choose|i: int| {
        &&& 0 <= i < init.len()
        &&& #[trigger] readable_with_id(init, i, e.id)
        &&& e == entry_spec(e.id, parse_spec(init[i].1.unwrap()), source, scope)
        &&& forall|j: int| 0 <= j < i ==> !readable_with_id(init, j, e.id)
    };
    assert(fs[i] == init[i]);
    assert(readable_with_id(fs, i, e.id));
    assert forall|j: int| 0 <= j < i implies !readable_with_id(fs, j, e.id) by {
        assert(fs[j] == init[j]);
        assert(!readable_with_id(init, j, e.id));
    }
}

proof fn lemma_merge_state(fs: Seq<(Seq<char>, Option<Seq<char>>)>, source: Seq<char>, scope: Scope)
    ensures
        merge_state(fs, source, scope).0 == merge_state(fs, source, scope).1.map_values(|e: EntryView| e.id),
        merge_state(fs, source, scope).0.no_duplicates(),
        forall|i: int, x: Seq<char>| 0 <= i < fs.len() && #[trigger] readable_with_id(fs, i, x) ==> merge_state(fs, source, scope).0.contains(x),
        forall|k: int| 0 <= k < merge_state(fs, source, scope).1.len() ==> listed_from_first(fs, #[trigger] merge_state(fs, source, scope).1[k], source, scope),
    decreases fs.len(),
{
    if fs.len() > 0 {
        let init = fs.drop_last();
        lemma_merge_state(init, source, scope);
        let (seen, out) = merge_state(init, source, scope);
        let n = fs.len() - 1;
        assert forall|i: int, x: Seq<char>| 0 <= i < n && #[trigger] readable_with_id(fs, i, x) implies readable_with_id(init, i, x) by {
            assert(fs[i] == init[i]);
        }
        assert forall|k: int| 0 <= k < out.len() implies listed_from_first(fs, #[trigger] out[k], source, scope) by {
            lemma_listed_extend(fs, out[k], source, scope);
        }
        let (name, text) = fs.last();
        match (desktop_id_spec(name), text) {
            (Some(id), Some(t)) => {
                if !seen.contains(id) {
                    let e = entry_spec(id, parse_spec(t), source, scope);
                    assert(merge_state(fs, source, scope) == (seen.push(id), out.push(e)));
                    assert(seen.push(id) =~= out.push(e).map_values(|e: EntryView| e.id));
                    assert(fs[n] == (name, text));
                    assert(readable_with_id(fs, n, e.id));
                    assert forall|j: int| 0 <= j < n implies !readable_with_id(fs, j, e.id) by {
                        if readable_with_id(fs, j, id) {
                            assert(readable_with_id(init, j, id));
                        }
                    }
                    assert(listed_from_first(fs, e, source, scope));
                    assert forall|k: int| 0 <= k < out.push(e).len() implies listed_from_first(fs, #[trigger] out.push(e)[k], source, scope) by {
                        if k < out.len() {
                            assert(out.push(e)[k] == out[k]);
                        }
                    }
                    assert forall|i: int, x: Seq<char>| 0 <= i < fs.len() && #[trigger] readable_with_id(fs, i, x) implies seen.push(id).contains(x) by {
                        if i < n {
                            assert(seen.contains(x));
                            let w = choose|w: int| 0 <= w < seen.len() && seen[w] == x;
                            assert(seen.push(id)[w] == x);
                        } else {
                            assert(seen.push(id)[seen.len() as int] == x);
                        }
                    }
                } else {
                    assert(merge_state(fs, source, scope) == (seen, out));
                    assert forall|i: int, x: Seq<char>| 0 <= i < fs.len() && #[trigger] readable_with_id(fs, i, x) implies seen.contains(x) by {
                        if i == n {
                            assert(x == id);
                        }
                    }
                }
            },
            _ => {
                assert(merge_state(fs, source, scope) == (seen, out));
                assert forall|i: int, x: Seq<char>| 0 <= i < fs.len() && #[trigger] readable_with_id(fs, i, x) implies seen.contains(x) by {
                    if i == n {
                        assert(false);
                    }
                }
            },
        }
    }
}

/// Merging directories lists each id once, every readable `.desktop` file's id is
/// listed, and the entry listed for an id is read from the first readable file with
/// that id: the highest-precedence directory wins.
pub proof fn law_merge_first_wins(fs: Seq<(Seq<char>, Option<Seq<char>>)>, source: Seq<char>, scope: Scope)
    ensures
        merge_state(fs, source, scope).1.map_values(|e: EntryView| e.id).no_duplicates(),
        forall|i: int, x: Seq<char>| 0 <= i < fs.len() && #[trigger] readable_with_id(fs, i, x) ==> merge_state(
            fs,
            source,
            scope,
        ).1.map_values(|e: EntryView| e.id).contains(x),
        forall|k: int| 0 <= k < merge_state(fs, source, scope).1.len() ==> listed_from_first(fs, #[trigger] merge_state(fs, source, scope).1[k], source, scope),
{
    lemma_merge_state(fs, source, scope);
}

/// A value that holds no newline and does not end in a carriage return: written as a
/// pair's value, it stays on its line and reads back unchanged.
pub open spec fn value_ok(v: Seq<char>) -> bool {
    !v.contains('\n') && !ends_cr(v)
}

/// A key of the XDG provider: non-empty, without whitespace or `=`, starting with a
/// letter.
spec fn plain_key(k: Seq<char>) -> bool {
    &&& k.len() > 0
    &&& forall|i: int| 0 <= i < k.len() ==> !is_ws(#[trigger] k[i]) && k[i] != '='
    &&& k[0] != '['
    &&& k[0] != '#'
}

proof fn lemma_plain_keys()
    ensures
        plain_key(key_type()),
        plain_key(key_name()),
        plain_key(key_exec()),
        plain_key(key_icon()),
        plain_key(key_comment()),
        plain_key(key_hidden()),
{
    assert forall|i: int| 0 <= i < key_type().len() implies !is_ws(#[trigger] key_type()[i]) && key_type()[i] != '=' by {}
    assert forall|i: int| 0 <= i < key_name().len() implies !is_ws(#[trigger] key_name()[i]) && key_name()[i] != '=' by {}
    assert forall|i: int| 0 <= i < key_exec().len() implies !is_ws(#[trigger] key_exec()[i]) && key_exec()[i] != '=' by {}
    assert forall|i: int| 0 <= i < key_icon().len() implies !is_ws(#[trigger] key_icon()[i]) && key_icon()[i] != '=' by {}
    assert forall|i: int| 0 <= i < key_comment().len() implies !is_ws(#[trigger] key_comment()[i]) && key_comment()[i] != '=' by {}
    assert forall|i: int| 0 <= i < key_hidden().len() implies !is_ws(#[trigger] key_hidden()[i]) && key_hidden()[i] != '=' by {}
}

/// The pair `k=v` of a plain key and a value that is fine on a line is well-formed.
proof fn lemma_field_wf(k: Seq<char>, v: Seq<char>)
    requires
        plain_key(k),
        value_ok(v),
    ensures
        line_wf(LineView::Pair(k, v)),
{
    lemma_pair_wf(k, v);
}

proof fn lemma_constants_ok()
    ensures
        value_ok(value_true()),
        value_ok(value_application()),
        line_wf(LineView::Group(main_group())),
{
    assert(!value_true().contains('\n')) by {
        if value_true().contains('\n') {
            let i = choose|i: int| 0 <= i < value_true().len() && value_true()[i] == '\n';
            assert(value_true()[i] != '\n');
        }
    }
    assert(!value_application().contains('\n')) by {
        if value_application().contains('\n') {
            let i = choose|i: int| 0 <= i < value_application().len() && value_application()[i] == '\n';
            assert(value_application()[i] != '\n');
        }
    }
    assert(!main_group().contains('\n')) by {
        if main_group().contains('\n') {
            let i = choose|i: int| 0 <= i < main_group().len() && main_group()[i] == '\n';
            assert(main_group()[i] != '\n');
        }
    }
    lemma_group_wf(main_group());
}

/// Every line after enabling or disabling is `Hidden=true`, the main group's header, or
/// a line that was there.
proof fn lemma_toggled_lines_from(ls: Seq<LineView>, enabled: bool)
    ensures
        forall|i: int| 0 <= i < toggled_lines(ls, enabled).len() ==> #[trigger] toggled_lines(ls, enabled)[i]
            == LineView::Pair(key_hidden(), value_true()) || toggled_lines(ls, enabled)[i] == LineView::Group(
            main_group(),
        ) || ls.contains(toggled_lines(ls, enabled)[i]),
{
    if enabled {
        lemma_remove_all_lines_from(ls, main_group(), key_hidden());
    } else {
        lemma_set_lines_from(ls, main_group(), key_hidden(), value_true());
    }
}

/// No line of the text written after enabling or disabling ends in a carriage return.
pub open spec fn toggled_cr_free(t: Seq<char>, enabled: bool) -> bool {
    forall|i: int| 0 <= i < toggled_lines(parse_spec(t), enabled).len() ==> !ends_cr(
        render(#[trigger] toggled_lines(parse_spec(t), enabled)[i]),
    )
}

/// Enabling an entry file's text twice gives the text of enabling it once, and so does
/// disabling, when no line written the first time ends in a carriage return (a line
/// that does would lose it when read back).
pub proof fn law_toggle_text_idempotent(t: Seq<char>, enabled: bool)
    requires
        toggled_cr_free(t, enabled),
    ensures
        toggled_text(toggled_text(t, enabled), enabled) == toggled_text(t, enabled),
{
    let l0 = parse_spec(t);
    let l1 = toggled_lines(l0, enabled);
    lemma_parsed_wf_unless_cr(t);
    lemma_toggled_lines_from(l0, enabled);
    lemma_plain_keys();
    lemma_constants_ok();
    lemma_field_wf(key_hidden(), value_true());
    assert forall|i: int| 0 <= i < l1.len() implies line_wf(#[trigger] l1[i]) by {
        if l1[i] != LineView::Pair(key_hidden(), value_true()) && l1[i] != LineView::Group(main_group()) {
            let j = choose|j: int| 0 <= j < l0.len() && l0[j] == l1[i];
            assert(!ends_cr(render(l1[i])));
            assert(!ends_cr(render(l0[j])));
        }
    }
    law_parse_of_text(l1);
    law_toggle_idempotent(l0, enabled);
}

/// Enabling or disabling an entry over its candidate files rewrites only the first file
/// that holds it, fails with nothing written when none does, and doing it a second time
/// changes nothing more, when no line written to that file ends in a carriage return.
pub proof fn law_toggle_fs_idempotent(fs: Seq<Option<Seq<char>>>, enabled: bool)
    requires
        first_from(fs, 0, fs.len() as int, is_held()) matches Some(j) ==> toggled_cr_free(fs[j].unwrap(), enabled),
    ensures
        match toggle_fs(fs, enabled) {
            Some(after) => {
                &&& after.len() == fs.len()
                &&& forall|m: int| 0 <= m < fs.len() && Some(m) != first_from(fs, 0, fs.len() as int, is_held())
                    ==> #[trigger] after[m] == fs[m]
                &&& toggle_fs(after, enabled) == Some(after)
            },
            None => forall|m: int| 0 <= m < fs.len() ==> fs[m] is None,
        },
{
    let n = fs.len() as int;
    lemma_first_from_props(fs, 0, n, is_held());
    if let Some(j) = first_from(fs, 0, n, is_held()) {
        let t1 = toggled_text(fs[j].unwrap(), enabled);
        let after = fs.update(j, Some(t1));
        law_toggle_text_idempotent(fs[j].unwrap(), enabled);
        assert forall|m: int| 0 <= m < j implies !is_held()(#[trigger] after[m]) by {
            assert(after[m] == fs[m]);
        }
        lemma_first_from_found(after, 0, n, is_held(), j);
        assert(after.update(j, Some(toggled_text(t1, enabled))) =~= after);
    } else {
        assert forall|m: int| 0 <= m < fs.len() implies fs[m] is None by {
            assert(!is_held()(fs[m]));
        }
    }
}

/// Removing the file that an edit or a removal picks (the first existing one, in
/// precedence order) makes the next existing copy the one picked next, or leaves none.
pub proof fn law_remove_picks_next(exists: Seq<bool>, j: int)
    requires
        0 <= j < exists.len(),
        exists[j],
        forall|k: int| 0 <= k < j ==> !exists[k],
    ensures
        match first_from(exists, j + 1, exists.len() as int, |b: bool| b) {
            Some(j2) => {
                &&& exists.update(j, false)[j2]
                &&& forall|k: int| 0 <= k < j2 ==> !#[trigger] exists.update(j, false)[k]
            },
            None => forall|k: int| 0 <= k < exists.len() ==> !#[trigger] exists.update(j, false)[k],
        },
{
    lemma_first_from_props(exists, j + 1, exists.len() as int, |b: bool| b);
}

/// When a file is removed from the listing and the next readable copy of an entry comes
/// after it, with no other readable copy before, the entry is listed read from that
/// copy. The removed file may be the entry's first copy, readable or not.
pub proof fn law_removed_copy_uncovers_next(
    fs: Seq<(Seq<char>, Option<Seq<char>>)>,
    i: int,
    i2: int,
    x: Seq<char>,
    source: Seq<char>,
    scope: Scope,
)
    requires
        0 <= i < i2 < fs.len(),
        readable_with_id(fs, i2, x),
        forall|m: int| 0 <= m < i2 && m != i ==> !readable_with_id(fs, m, x),
    ensures
        exists|k: int|
            0 <= k < merge_state(fs.remove(i), source, scope).1.len() && #[trigger] merge_state(
                fs.remove(i),
                source,
                scope,
            ).1[k] == entry_spec(x, parse_spec(fs[i2].1.unwrap()), source, scope),
{
    let rest = fs.remove(i);
    assert(rest[i2 - 1] == fs[i2]);
    assert(readable_with_id(rest, i2 - 1, x));
    law_merge_first_wins(rest, source, scope);
    let out = merge_state(rest, source, scope).1;
    let ids = out.map_values(|e: EntryView| e.id);
    assert(ids.contains(x));
    let k = choose|k: int| 0 <= k < ids.len() && ids[k] == x;
    assert(out[k].id == x);
    assert(listed_from_first(rest, out[k], source, scope));
    let w = choose|w: int| {
        &&& 0 <= w < rest.len()
        &&& #[trigger] readable_with_id(rest, w, out[k].id)
        &&& out[k] == entry_spec(out[k].id, parse_spec(rest[w].1.unwrap()), source, scope)
        &&& forall|j: int| 0 <= j < w ==> !readable_with_id(rest, j, out[k].id)
    };
    if w < i2 - 1 {
        if w < i {
            assert(rest[w] == fs[w]);
            assert(readable_with_id(fs, w, x));
        } else {
            assert(rest[w] == fs[w + 1]);
            assert(readable_with_id(fs, w + 1, x));
        }
    } else if w > i2 - 1 {
        assert(!readable_with_id(rest, i2 - 1, x));
    }
    assert(w == i2 - 1);
}

/// A new entry's file, written under the name `id.desktop` where no other readable
/// file has that id, is listed exactly once, with the entry's name, description,
/// command, icon and enabled state, and the listing's source and scope, when the id
/// is not empty and no field holds a newline or ends in a carriage return.
pub proof fn law_added_entry_listed(
    fs: Seq<(Seq<char>, Option<Seq<char>>)>,
    k: int,
    e: EntryView,
    source: Seq<char>,
    scope: Scope,
)
    requires
        0 <= k < fs.len(),
        e.id.len() > 0,
        fs[k] == (e.id + desktop_suffix(), Some(text_of(new_entry_lines(e)))),
        forall|j: int| 0 <= j < fs.len() && j != k ==> !readable_with_id(fs, j, e.id),
        value_ok(e.display_name),
        value_ok(e.command),
        e.icon matches Some(i) ==> value_ok(i),
        e.description matches Some(d) ==> value_ok(d),
    ensures
        exists|m: int| {
            &&& 0 <= m < merge_state(fs, source, scope).1.len()
            &&& (#[trigger] merge_state(fs, source, scope).1[m]).id == e.id
            &&& same_fields(merge_state(fs, source, scope).1[m], e)
            &&& merge_state(fs, source, scope).1[m].enabled == e.enabled
            &&& merge_state(fs, source, scope).1[m].source == source
            &&& merge_state(fs, source, scope).1[m].scope == scope
        },
        forall|m1: int, m2: int|
            0 <= m1 < merge_state(fs, source, scope).1.len() && 0 <= m2 < merge_state(
                fs,
                source,
                scope,
            ).1.len() && (#[trigger] merge_state(fs, source, scope).1[m1]).id == e.id && (
            #[trigger] merge_state(fs, source, scope).1[m2]).id == e.id ==> m1 == m2,
{
    let name = e.id + desktop_suffix();
    assert(name.skip(name.len() - 8) =~= desktop_suffix());
    assert(name.take(name.len() - 8) =~= e.id);
    assert(readable_with_id(fs, k, e.id));
    // The file's lines are well-formed, so it reads back as written.
    lemma_plain_keys();
    lemma_constants_ok();
    let g = main_group();
    let l0 = Seq::<LineView>::empty();
    let l1 = set_spec(l0, g, key_type(), value_application());
    lemma_field_wf(key_type(), value_application());
    lemma_set_wf(l0, g, key_type(), value_application());
    let l2 = set_spec(l1, g, key_name(), e.display_name);
    lemma_field_wf(key_name(), e.display_name);
    lemma_set_wf(l1, g, key_name(), e.display_name);
    let l3 = set_spec(l2, g, key_exec(), e.command);
    lemma_field_wf(key_exec(), e.command);
    lemma_set_wf(l2, g, key_exec(), e.command);
    let l4 = match e.icon {
        Some(i) => set_spec(l3, g, key_icon(), i),
        None => l3,
    };
    if let Some(i) = e.icon {
        lemma_field_wf(key_icon(), i);
        lemma_set_wf(l3, g, key_icon(), i);
    }
    let l5 = match e.description {
        Some(d) => set_spec(l4, g, key_comment(), d),
        None => l4,
    };
    if let Some(d) = e.description {
        lemma_field_wf(key_comment(), d);
        lemma_set_wf(l4, g, key_comment(), d);
    }
    if !e.enabled {
        lemma_field_wf(key_hidden(), value_true());
        lemma_set_wf(l5, g, key_hidden(), value_true());
    }
    assert(lines_wf(new_entry_lines(e)));
    law_parse_of_text(new_entry_lines(e));
    law_new_entry_reads_back(e, e.id, source, scope);
    // The listing holds the id once, read from this file.
    law_merge_first_wins(fs, source, scope);
    let out = merge_state(fs, source, scope).1;
    let ids = out.map_values(|x: EntryView| x.id);
    assert(ids.contains(e.id));
    let m = choose|m: int| 0 <= m < ids.len() && ids[m] == e.id;
    assert(out[m].id == e.id);
    assert(listed_from_first(fs, out[m], source, scope));
    let w = choose|w: int| {
        &&& 0 <= w < fs.len()
        &&& #[trigger] readable_with_id(fs, w, out[m].id)
        &&& out[m] == entry_spec(out[m].id, parse_spec(fs[w].1.unwrap()), source, scope)
        &&& forall|j: int| 0 <= j < w ==> !readable_with_id(fs, j, out[m].id)
    };
    assert(w == k);
    assert(out[m] == entry_spec(e.id, new_entry_lines(e), source, scope));
    assert forall|m1: int, m2: int|
        0 <= m1 < out.len() && 0 <= m2 < out.len() && (#[trigger] out[m1]).id == e.id && (
        #[trigger] out[m2]).id == e.id implies m1 == m2 by {
        assert(ids[m1] == out[m1].id);
        assert(ids[m2] == out[m2].id);
    }
}

/// `h` is `true` in any mix of upper and lower case.
pub open spec fn true_any_case(h: Seq<char>) -> bool {
    &&& h.len() == 4
    &&& (h[0] == 't' || h[0] == 'T')
    &&& (h[1] == 'r' || h[1] == 'R')
    &&& (h[2] == 'u' || h[2] == 'U')
    &&& (h[3] == 'e' || h[3] == 'E')
}

/// What an entry reads from its desktop file, all from the `[Desktop Entry]` group: its
/// name from `Name` (the id when there is none), its description from `Comment`, its
/// command from `Exec` (empty when there is none), its icon from `Icon`; it is enabled
/// unless `Hidden` is `true` in any case; and it keeps the given id, source and scope.
pub proof fn law_entry_fields(id: Seq<char>, ls: Seq<LineView>, source: Seq<char>, scope: Scope)
    ensures
        entry_spec(id, ls, source, scope).id == id,
        entry_spec(id, ls, source, scope).source == source,
        entry_spec(id, ls, source, scope).scope == scope,
        entry_spec(id, ls, source, scope).display_name == match get_spec(ls, "Desktop Entry"@, "Name"@) {
            Some(n) => n,
            None => id,
        },
        entry_spec(id, ls, source, scope).description == get_spec(ls, "Desktop Entry"@, "Comment"@),
        entry_spec(id, ls, source, scope).command == match get_spec(ls, "Desktop Entry"@, "Exec"@) {
            Some(c) => c,
            None => Seq::<char>::empty(),
        },
        entry_spec(id, ls, source, scope).icon == get_spec(ls, "Desktop Entry"@, "Icon"@),
        entry_spec(id, ls, source, scope).enabled <==> !(get_spec(ls, "Desktop Entry"@, "Hidden"@) matches Some(h)
            && true_any_case(h)),
{
    reveal_strlit("Desktop Entry");
    reveal_strlit("Name");
    reveal_strlit("Comment");
    reveal_strlit("Exec");
    reveal_strlit("Icon");
    reveal_strlit("Hidden");
    assert("Desktop Entry"@ =~= main_group());
    assert("Name"@ =~= key_name());
    assert("Comment"@ =~= key_comment());
    assert("Exec"@ =~= key_exec());
    assert("Icon"@ =~= key_icon());
    assert("Hidden"@ =~= key_hidden());
    if let Some(h) = get_spec(ls, main_group(), key_hidden()) {
        if h.len() == 4 {
            lemma_lower_is(h[0], 't', 'T');
            lemma_lower_is(h[1], 'r', 'R');
            lemma_lower_is(h[2], 'u', 'U');
            lemma_lower_is(h[3], 'e', 'E');
            assert(crate::xdg::is_true_word(h) == true_any_case(h));
        }
    }
}

/// A character lowers to the lower-case letter `lo` exactly when it is `lo` or its
/// capital `up`.
proof fn lemma_lower_is(c: char, lo: char, up: char)
    requires
        97 <= lo as u32 <= 122,
        up as u32 + 32 == lo as u32,
    ensures
        (crate::xdg::ascii_lower(c) == lo as u32) <==> (c == lo || c == up),
{
    let u = c as u32;
    if u == lo as u32 {
        assert(c == lo);
    }
    if u == up as u32 {
        assert(c == up);
    }
}

/// A file names an entry exactly when its name is a non-empty id followed by
/// `.desktop`, and the id is that stem.
pub proof fn law_desktop_id(name: Seq<char>)
    ensures
        match desktop_id_spec(name) {
            Some(x) => x.len() > 0 && name == x + ".desktop"@,
            None => !(name.len() > 8 && name.skip(name.len() - 8) == ".desktop"@),
        },
{
    reveal_strlit(".desktop");
    assert(".desktop"@ =~= desktop_suffix());
    if let Some(x) = desktop_id_spec(name) {
        assert(name =~= x + ".desktop"@);
    }
}

/// The user autostart directory is `$XDG_CONFIG_HOME/autostart` when that is set and
/// not empty, else `$HOME/.config/autostart` (a relative `.config/autostart` without a
/// home); the system ones are `autostart` under each non-empty entry of
/// `$XDG_CONFIG_DIRS`, in order, else `/etc/xdg/autostart` alone.
pub proof fn law_autostart_dirs(config_home: Option<Seq<char>>, home: Option<Seq<char>>, config_dirs: Option<Seq<char>>)
    ensures
        user_dir_spec(config_home, home) == join_spec(
            match config_home {
                Some(x) if x.len() > 0 => x,
                _ => join_spec(
                    match home {
                        Some(h) => h,
                        None => Seq::<char>::empty(),
                    },
                    ".config"@,
                ),
            },
            "autostart"@,
        ),
        ({
            let parts = segments(
                match config_dirs {
                    Some(d) => d,
                    None => Seq::<char>::empty(),
                },
                ':',
            );
            &&& parts.len() == 0 ==> system_dirs_spec(config_dirs) == seq!["/etc/xdg/autostart"@]
            &&& parts.len() > 0 ==> system_dirs_spec(config_dirs).len() == parts.len() && forall|i: int|
                0 <= i < parts.len() ==> #[trigger] system_dirs_spec(config_dirs)[i] == join_spec(parts[i], "autostart"@)
        }),
{
    reveal_strlit(".config");
    reveal_strlit("autostart");
    reveal_strlit("/etc/xdg/autostart");
    assert(".config"@ =~= seq!['.', 'c', 'o', 'n', 'f', 'i', 'g']);
    assert("autostart"@ =~= seq!['a', 'u', 't', 'o', 's', 't', 'a', 'r', 't']);
    assert("/etc/xdg/autostart"@ =~= seq!['/', 'e', 't', 'c', '/', 'x', 'd', 'g', '/', 'a', 'u', 't', 'o', 's', 't', 'a', 'r', 't']);
}

} // verus!
