//! The decisions behind the command-line tool: how an entry address is resolved, which
//! entries a listing keeps, and the text of its plain-output lines.
use vstd::prelude::*;

use crate::model::{AutostartEntry, EntryView, Scope, entries_view};
use crate::search::{first_from, lemma_first_from_found, lemma_first_from_none, lemma_first_from_props};
use crate::text::{chars_of, push_char, string_of};

verus! {

/// The texts of a list of provider ids.
pub open spec fn ids_view(ids: Seq<&'static str>) -> Seq<Seq<char>> {
    ids.map_values(|s: &'static str| s@)
}

/// The element equals `x`.
pub open spec fn equals(x: Seq<char>) -> spec_fn(Seq<char>) -> bool {
    |y: Seq<char>| y == x
}

/// The character is a colon.
pub open spec fn is_colon() -> spec_fn(char) -> bool {
    |c: char| c == ':'
}

/// A `source:id` address split at its first colon, when the part before the colon is
/// the id of a known provider: that provider's index and the rest.
pub open spec fn split_target_spec(target: Seq<char>, ids: Seq<Seq<char>>) -> Option<(int, Seq<char>)> {
    match first_from(target, 0, target.len() as int, is_colon()) {
        None => None,
        Some(c) => match first_from(ids, 0, ids.len() as int, equals(target.take(c))) {
            Some(i) => Some((i, target.skip(c + 1))),
            None => None,
        },
    }
}

/// Resolve the source-qualified form `<source>:<id>`: only when the prefix before the
/// first colon names a known provider (ids themselves may contain `:`).
pub fn split_target(target: &str, ids: &Vec<&'static str>) -> (r: Option<(usize, String)>)
    ensures
        match r {
            Some((i, rest)) => split_target_spec(target@, ids_view(ids@)) == Some((i as int, rest@)),
            None => split_target_spec(target@, ids_view(ids@)) is None,
        },
        match r {
            Some((i, rest)) => {
                &&& i < ids.len()
                &&& ids@[i as int]@ + seq![':'] + rest@ == target@
                &&& !ids@[i as int]@.contains(':')
            },
            None => forall|i: int|
                0 <= i < ids.len() && !(#[trigger] ids@[i]@).contains(':') ==> !(ids@[i]@.len() < target@.len()
                    && target@.take(ids@[i]@.len() as int) == ids@[i]@ && target@[ids@[i]@.len() as int] == ':'),
        },
{
    proof {
        law_split_target(target@, ids_view(ids@));
    }
    let v = chars_of(target);
    let mut c: usize = 0;
    while c < v.len() && v[c] != ':'
        invariant
            c <= v.len(),
            v@ == target@,
            forall|k: int| 0 <= k < c ==> !is_colon()(#[trigger] v@[k]),
        decreases v.len() - c,
    {
        c = c + 1;
    }
    if c == v.len() {
        proof {
            lemma_first_from_none(v@, 0, v.len() as int, is_colon());
        }
        return None;
    }
    proof {
        lemma_first_from_found(v@, 0, v.len() as int, is_colon(), c as int);
    }
    let prefix = string_of(&v, 0, c);
    assert(prefix@ =~= target@.take(c as int));
    let ghost iv = ids_view(ids@);
    let mut i: usize = 0;
    while i < ids.len()
        invariant
            i <= ids.len(),
            iv == ids_view(ids@),
            c < v.len(),
            v@ == target@,
            prefix@ == target@.take(c as int),
            first_from(target@, 0, target@.len() as int, is_colon()) == Some(c as int),
            forall|k: int| 0 <= k < i ==> !equals(prefix@)(#[trigger] iv[k]),
        decreases ids.len() - i,
    {
        if ids[i].to_owned() == prefix {
            proof {
                lemma_first_from_found(iv, 0, iv.len() as int, equals(prefix@), i as int);
            }
            let rest = string_of(&v, c + 1, v.len());
            assert(rest@ =~= target@.skip(c + 1));
            proof {
                law_split_target(target@, ids_view(ids@));
                assert(iv[i as int] == ids@[i as int]@);
            }
            return Some((i, rest));
        }
        i = i + 1;
    }
    proof {
        lemma_first_from_none(iv, 0, iv.len() as int, equals(prefix@));
        law_split_target(target@, iv);
        assert forall|i: int|
            0 <= i < ids.len() && !(#[trigger] ids@[i]@).contains(':') implies !(ids@[i]@.len() < target@.len()
                && target@.take(ids@[i]@.len() as int) == ids@[i]@ && target@[ids@[i]@.len() as int] == ':') by {
            assert(iv[i] == ids@[i]@);
        }
    }
    None
}

/// An address splits into a known provider's id and the rest exactly when the provider's
/// id, a colon and the rest make up the address and the id holds no colon: the part
/// before the address's first colon must be the id itself, not merely start with it.
pub proof fn law_split_target(target: Seq<char>, ids: Seq<Seq<char>>)
    ensures
        match split_target_spec(target, ids) {
            Some((i, rest)) => {
                &&& 0 <= i < ids.len()
                &&& ids[i] + seq![':'] + rest == target
                &&& !ids[i].contains(':')
            },
            None => forall|i: int|
                0 <= i < ids.len() && !(#[trigger] ids[i]).contains(':') ==> !(ids[i].len() < target.len()
                    && target.take(ids[i].len() as int) == ids[i] && target[ids[i].len() as int] == ':'),
        },
{
    let n = target.len() as int;
    lemma_first_from_props(target, 0, n, is_colon());
    match first_from(target, 0, n, is_colon()) {
        None => {
            assert forall|i: int|
                0 <= i < ids.len() && !(#[trigger] ids[i]).contains(':') implies !(ids[i].len() < target.len()
                    && target.take(ids[i].len() as int) == ids[i] && target[ids[i].len() as int] == ':') by {
                if ids[i].len() < target.len() {
                    assert(!is_colon()(target[ids[i].len() as int]));
                }
            }
        },
        Some(c) => {
            lemma_first_from_props(ids, 0, ids.len() as int, equals(target.take(c)));
            match first_from(ids, 0, ids.len() as int, equals(target.take(c))) {
                Some(i) => {
                    let rest = target.skip(c + 1);
                    assert(ids[i] + seq![':'] + rest =~= target);
                    assert(!ids[i].contains(':')) by {
                        if ids[i].contains(':') {
                            let j = choose|j: int| 0 <= j < ids[i].len() && ids[i][j] == ':';
                            assert(target[j] == ':');
                            assert(!is_colon()(target[j]));
                        }
                    }
                },
                None => {
                    assert forall|i: int|
                        0 <= i < ids.len() && !(#[trigger] ids[i]).contains(':') implies !(ids[i].len() < target.len()
                            && target.take(ids[i].len() as int) == ids[i] && target[ids[i].len() as int] == ':') by {
                        let x = ids[i];
                        if x.len() < target.len() && target.take(x.len() as int) == x && target[x.len() as int] == ':' {
                            // The first colon of the address is the one after the id.
                            assert forall|k: int| 0 <= k < x.len() implies !is_colon()(#[trigger] target[k]) by {
                                assert(target.take(x.len() as int)[k] == target[k]);
                                if target[k] == ':' {
                                    assert(x[k] == ':');
                                    assert(x.contains(':'));
                                }
                            }
                            lemma_first_from_found(target, 0, n, is_colon(), x.len() as int);
                            assert(target.take(c) =~= x);
                            assert(!equals(target.take(c))(ids[i]));
                        }
                    }
                },
            }
        },
    }
}

/// Whether some entry has id `id`.
pub fn entries_have_id(entries: &Vec<AutostartEntry>, id: &str) -> (r: bool)
    ensures
        r == exists|k: int| 0 <= k < entries.len() && #[trigger] entries@[k].id@ == id@,
{
    let key = id.to_owned();
    let mut i: usize = 0;
    while i < entries.len()
        invariant
            i <= entries.len(),
            key@ == id@,
            forall|k: int| 0 <= k < i ==> #[trigger] entries@[k].id@ != id@,
        decreases entries.len() - i,
    {
        if entries[i].id == key {
            return true;
        }
        i = i + 1;
    }
    false
}

/// The indices where `flags` holds, in order.
pub open spec fn true_indices(flags: Seq<bool>) -> Seq<int>
    decreases flags.len(),
{
    if flags.len() == 0 {
        seq![]
    } else if flags.last() {
        true_indices(flags.drop_last()).push(flags.len() - 1)
    } else {
        true_indices(flags.drop_last())
    }
}

/// The indices a bare id resolves among are exactly the providers that have the entry,
/// each once, in provider order.
pub proof fn law_true_indices(flags: Seq<bool>)
    ensures
        forall|m: int| 0 <= m < true_indices(flags).len() ==> 0 <= #[trigger] true_indices(flags)[m] < flags.len()
            && flags[true_indices(flags)[m]],
        forall|m1: int, m2: int| 0 <= m1 < m2 < true_indices(flags).len() ==> #[trigger] true_indices(flags)[m1]
            < #[trigger] true_indices(flags)[m2],
        forall|k: int| 0 <= k < flags.len() && #[trigger] flags[k] ==> true_indices(flags).contains(k),
    decreases flags.len(),
{
    if flags.len() > 0 {
        let init = flags.drop_last();
        law_true_indices(init);
        let t = true_indices(init);
        assert forall|k: int| 0 <= k < flags.len() && #[trigger] flags[k] implies true_indices(flags).contains(k) by {
            if k < flags.len() - 1 {
                assert(init[k] == flags[k]);
                assert(t.contains(k));
                let w = choose|w: int| 0 <= w < t.len() && t[w] == k;
                if flags.last() {
                    assert(true_indices(flags)[w] == k);
                }
            } else if flags.last() {
                assert(true_indices(flags)[t.len() as int] == k);
            }
        }
        assert forall|m: int| 0 <= m < true_indices(flags).len() implies 0 <= #[trigger] true_indices(flags)[m]
            < flags.len() && flags[true_indices(flags)[m]] by {
            if m < t.len() {
                assert(true_indices(flags)[m] == t[m]);
                assert(init[t[m]] == flags[t[m]]);
            }
        }
    }
}

/// How a bare id resolves across the available providers.
pub enum Resolution {
    /// No provider has an entry with that id.
    NotFound,
    /// Exactly one provider, at this index, has it.
    Found(usize),
    /// Several providers, at these indices, have it.
    Ambiguous(Vec<usize>),
}

/// Resolve a bare id, given for each available provider whether it has an entry with
/// that id: a unique match dispatches, none or several are refused.
pub fn resolve_bare(has_entry: &Vec<bool>) -> (r: Resolution)
    ensures
        match r {
            Resolution::NotFound => true_indices(has_entry@).len() == 0,
            Resolution::Found(i) => true_indices(has_entry@) == seq![i as int],
            Resolution::Ambiguous(v) => true_indices(has_entry@).len() >= 2 && true_indices(has_entry@)
                == v@.map_values(|i: usize| i as int),
        },
{
    let mut found: Vec<usize> = Vec::new();
    let mut i: usize = 0;
    while i < has_entry.len()
        invariant
            i <= has_entry.len(),
            found@.map_values(|i: usize| i as int) == true_indices(has_entry@.take(i as int)),
        decreases has_entry.len() - i,
    {
        assert(has_entry@.take(i + 1).drop_last() =~= has_entry@.take(i as int));
        if has_entry[i] {
            let ghost before = found@;
            found.push(i);
            assert(found@.map_values(|i: usize| i as int) =~= before.map_values(|i: usize| i as int).push(i as int));
        }
        i = i + 1;
    }
    assert(has_entry@.take(has_entry.len() as int) =~= has_entry@);
    if found.len() == 0 {
        Resolution::NotFound
    } else if found.len() == 1 {
        let only = found[0];
        assert(found@.map_values(|i: usize| i as int) =~= seq![only as int]);
        Resolution::Found(only)
    } else {
        Resolution::Ambiguous(found)
    }
}

/// `source:id`, the address of an entry.
pub open spec fn address_spec(source: Seq<char>, id: Seq<char>) -> Seq<char> {
    source + seq![':'] + id
}

/// `source:id`, the address of an entry.
pub fn address(source: &str, id: &str) -> (r: String)
    ensures
        r@ == address_spec(source@, id@),
{
    let mut out = source.to_owned();
    push_char(&mut out, ':');
    out.append(id);
    out
}

/// The addresses of every entry, one per line of shell-completion output.
pub fn entry_addresses(entries: &Vec<AutostartEntry>) -> (r: Vec<String>)
    ensures
        r.len() == entries.len(),
        forall|k: int| 0 <= k < r.len() ==> #[trigger] r@[k]@ == address_spec(entries@[k].source@, entries@[k].id@),
{
    let mut out: Vec<String> = Vec::new();
    let mut i: usize = 0;
    while i < entries.len()
        invariant
            i <= entries.len(),
            out.len() == i,
            forall|k: int| 0 <= k < i ==> #[trigger] out@[k]@ == address_spec(entries@[k].source@, entries@[k].id@),
        decreases entries.len() - i,
    {
        out.push(address(entries[i].source.as_str(), entries[i].id.as_str()));
        i = i + 1;
    }
    out
}

/// The entries from source `source`, in order.
pub fn retain_source(entries: &Vec<AutostartEntry>, source: &str) -> (r: Vec<AutostartEntry>)
    ensures
        entries_view(r@) == entries_view(entries@).filter(|e: EntryView| e.source == source@),
{
    let ghost ev = entries_view(entries@);
    let key = source.to_owned();
    let mut out: Vec<AutostartEntry> = Vec::new();
    let mut i: usize = 0;
    while i < entries.len()
        invariant
            i <= entries.len(),
            ev == entries_view(entries@),
            key@ == source@,
            entries_view(out@) == ev.take(i as int).filter(|e: EntryView| e.source == source@),
        decreases entries.len() - i,
    {
        proof {
            reveal_with_fuel(Seq::<_>::filter, 1);
            assert(ev.take(i + 1).drop_last() =~= ev.take(i as int));
        }
        if entries[i].source == key {
            let ghost before = out@;
            let e = entries[i].duplicate();
            out.push(e);
            assert(entries_view(out@) =~= entries_view(before).push(ev[i as int]));
        }
        i = i + 1;
    }
    assert(ev.take(entries.len() as int) =~= ev);
    out
}

/// The entries of scope `scope`, in order.
pub fn retain_scope(entries: &Vec<AutostartEntry>, scope: Scope) -> (r: Vec<AutostartEntry>)
    ensures
        entries_view(r@) == entries_view(entries@).filter(|e: EntryView| e.scope == scope),
{
    let ghost ev = entries_view(entries@);
    let mut out: Vec<AutostartEntry> = Vec::new();
    let mut i: usize = 0;
    while i < entries.len()
        invariant
            i <= entries.len(),
            ev == entries_view(entries@),
            entries_view(out@) == ev.take(i as int).filter(|e: EntryView| e.scope == scope),
        decreases entries.len() - i,
    {
        proof {
            reveal_with_fuel(Seq::<_>::filter, 1);
            assert(ev.take(i + 1).drop_last() =~= ev.take(i as int));
        }
        if entries[i].scope == scope {
            let ghost before = out@;
            let e = entries[i].duplicate();
            out.push(e);
            assert(entries_view(out@) =~= entries_view(before).push(ev[i as int]));
        }
        i = i + 1;
    }
    assert(ev.take(entries.len() as int) =~= ev);
    out
}

/// The text of `{:?}` for a scope.
pub open spec fn scope_name(scope: Scope) -> Seq<char> {
    match scope {
        Scope::User => "User"@,
        Scope::System => "System"@,
    }
}

/// `n` spaces.
pub open spec fn spaces(n: nat) -> Seq<char> {
    Seq::new(n, |i: int| ' ')
}

/// The line describing a provider: its id left-aligned in sixteen columns, its scope,
/// and whether it is available.
pub open spec fn source_line_spec(id: Seq<char>, scope: Scope, available: bool) -> Seq<char> {
    let pad: nat = if id.len() < 16 { (16 - id.len()) as nat } else { 0 };
    id + spaces(pad) + " scope="@ + scope_name(scope) + " ["@ + (if available { "available"@ } else { "unavailable"@ }) + "]"@
}

/// A provider's line starts with its id and ends with ` [available]` exactly when the
/// provider is available, and with ` [unavailable]` when it is not, whatever its scope.
pub proof fn law_source_line(id: Seq<char>, scope: Scope, available: bool)
    ensures
        source_line_spec(id, scope, available).take(id.len() as int) == id,
        available ==> source_line_spec(id, scope, available).len() >= 12 && source_line_spec(
            id,
            scope,
            available,
        ).skip(source_line_spec(id, scope, available).len() - 12) == " [available]"@,
        !available ==> source_line_spec(id, scope, available).len() >= 14 && source_line_spec(
            id,
            scope,
            available,
        ).skip(source_line_spec(id, scope, available).len() - 14) == " [unavailable]"@,
{
    reveal_strlit(" [");
    reveal_strlit("available");
    reveal_strlit("unavailable");
    reveal_strlit("]");
    reveal_strlit(" [available]");
    reveal_strlit(" [unavailable]");
    let pad: nat = if id.len() < 16 { (16 - id.len()) as nat } else { 0 };
    let head = id + spaces(pad) + " scope="@ + scope_name(scope);
    let line = source_line_spec(id, scope, available);
    if available {
        assert(line == head + (" ["@ + "available"@ + "]"@)) by {
            assert(line =~= head + (" ["@ + "available"@ + "]"@));
        }
        assert(" ["@ + "available"@ + "]"@ =~= " [available]"@);
        assert(line.skip(line.len() - 12) =~= " [available]"@);
    } else {
        assert(line == head + (" ["@ + "unavailable"@ + "]"@)) by {
            assert(line =~= head + (" ["@ + "unavailable"@ + "]"@));
        }
        assert(" ["@ + "unavailable"@ + "]"@ =~= " [unavailable]"@);
        assert(line.skip(line.len() - 14) =~= " [unavailable]"@);
    }
    assert(line.take(id.len() as int) =~= id);
}

/// The line describing a provider: its id left-aligned in sixteen columns, its scope,
/// and whether it is available.
pub fn source_line(id: &str, scope: Scope, available: bool) -> (r: String)
    ensures
        r@ == source_line_spec(id@, scope, available),
        r@.take(id@.len() as int) == id@,
        available ==> r@.len() >= 12 && r@.skip(r@.len() - 12) == " [available]"@,
        !available ==> r@.len() >= 14 && r@.skip(r@.len() - 14) == " [unavailable]"@,
{
    proof {
        law_source_line(id@, scope, available);
    }
    let v = chars_of(id);
    let mut out = id.to_owned();
    let mut n = v.len();
    while n < 16
        invariant
            v.len() <= n <= 16 || (n == v.len() && v.len() >= 16),
            v@ == id@,
            out@ == id@ + spaces((n - v.len()) as nat),
        decreases 16 - n,
    {
        push_char(&mut out, ' ');
        n = n + 1;
        assert(out@ =~= id@ + spaces((n - v.len()) as nat));
    }
    assert(spaces((n - v.len()) as nat) =~= spaces(if id@.len() < 16 { (16 - id@.len()) as nat } else { 0 }));
    out.append(" scope=");
    match scope {
        Scope::User => out.append("User"),
        Scope::System => out.append("System"),
    }
    out.append(" [");
    if available {
        out.append("available");
    } else {
        out.append("unavailable");
    }
    out.append("]");
    out
}

/// `s` shortened to at most `max` characters, its end replaced by an ellipsis when it
/// is longer.
pub open spec fn truncate_spec(s: Seq<char>, max: nat) -> Seq<char> {
    if s.len() <= max {
        s
    } else {
        s.take(if max >= 1 { max - 1 } else { 0 }) + seq!['\u{2026}']
    }
}

/// A shortened string is the string itself when it fits in `max` characters; otherwise
/// it has exactly `max` characters (one, when `max` is zero), its first `max - 1`
/// taken from the string and the last an ellipsis.
pub proof fn law_truncate(s: Seq<char>, max: nat)
    ensures
        s.len() <= max ==> truncate_spec(s, max) == s,
        s.len() > max ==> {
            &&& truncate_spec(s, max).len() == if max >= 1 { max } else { 1 }
            &&& truncate_spec(s, max).last() == '\u{2026}'
            &&& forall|i: int| 0 <= i < truncate_spec(s, max).len() - 1 ==> #[trigger] truncate_spec(s, max)[i] == s[i]
        },
{
}

/// Truncate a string to `max` chars with an ellipsis, for table display.
pub fn truncate(s: &str, max: usize) -> (r: String)
    ensures
        r@ == truncate_spec(s@, max as nat),
{
    let v = chars_of(s);
    if v.len() <= max {
        return s.to_owned();
    }
    let kept = if max >= 1 { max - 1 } else { 0 };
    let mut out = string_of(&v, 0, kept);
    push_char(&mut out, '\u{2026}');
    assert(v@.subrange(0, kept as int) =~= s@.take(kept as int));
    out
}

/// An entry's address resolves back to its provider and id: splitting `source:id` gives
/// the index of the provider named `source` (its first occurrence) and `id`, when the
/// provider's id holds no colon.
pub proof fn law_address_round_trip(ids: Seq<Seq<char>>, i: int, id: Seq<char>)
    requires
        0 <= i < ids.len(),
        !ids[i].contains(':'),
        forall|j: int| 0 <= j < i ==> ids[j] != ids[i],
    ensures
        split_target_spec(address_spec(ids[i], id), ids) == Some((i, id)),
{
    let x = ids[i];
    let t = address_spec(x, id);
    assert(t[x.len() as int] == ':');
    assert forall|k: int| 0 <= k < x.len() implies !is_colon()(#[trigger] t[k]) by {
        assert(t[k] == x[k]);
        if x[k] == ':' {
            assert(x.contains(':'));
        }
    }
    lemma_first_from_found(t, 0, t.len() as int, is_colon(), x.len() as int);
    assert(t.take(x.len() as int) =~= x);
    assert(t.skip(x.len() as int + 1) =~= id);
    assert forall|j: int| 0 <= j < i implies !equals(x)(#[trigger] ids[j]) by {}
    lemma_first_from_found(ids, 0, ids.len() as int, equals(x), i);
}

} // verus!
