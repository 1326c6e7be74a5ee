//! Paths as text: joining a component onto a directory, and splitting and joining
//! lists of them.
use vstd::prelude::*;

use crate::text::{chars_of, push_char, string_of};

verus! {

/// `base` joined with `comp` as `Path::join` does on Unix: an absolute `comp`
/// replaces `base`; otherwise a `/` goes between them unless `base` is empty or already
/// ends with one.
pub open spec fn join_spec(base: Seq<char>, comp: Seq<char>) -> Seq<char> {
    if comp.len() > 0 && comp[0] == '/' {
        comp
    } else if base.len() == 0 || base.last() == '/' {
        base + comp
    } else {
        base + seq!['/'] + comp
    }
}

/// `base` joined with `comp`.
pub fn join_path(base: &str, comp: &str) -> (r: String)
    ensures
        r@ == join_spec(base@, comp@),
{
    let c = chars_of(comp);
    if c.len() > 0 && c[0] == '/' {
        return comp.to_owned();
    }
    let b = chars_of(base);
    let mut out = base.to_owned();
    if b.len() > 0 && b[b.len() - 1] != '/' {
        push_char(&mut out, '/');
    }
    out.append(comp);
    out
}

/// The non-empty pieces of `s` between separators `sep` finished so far, and the piece
/// in progress.
pub open spec fn segments_state(s: Seq<char>, sep: char) -> (Seq<Seq<char>>, Seq<char>)
    decreases s.len(),
{
    if s.len() == 0 {
        (seq![], seq![])
    } else {
        let (done, cur) = segments_state(s.drop_last(), sep);
        if s.last() == sep {
            (if cur.len() > 0 { done.push(cur) } else { done }, seq![])
        } else {
            (done, cur.push(s.last()))
        }
    }
}

/// The non-empty pieces of `s` between separators `sep`, in order
/// (`s.split(sep).filter(|p| !p.is_empty())`).
pub open spec fn segments(s: Seq<char>, sep: char) -> Seq<Seq<char>> {
    let (done, cur) = segments_state(s, sep);
    if cur.len() > 0 {
        done.push(cur)
    } else {
        done
    }
}

/// Every piece of `s` between separators is non-empty and holds no separator, and the
/// pieces, in order, spell `s` without its separators.
pub proof fn law_segments(s: Seq<char>, sep: char)
    ensures
        forall|i: int| 0 <= i < segments(s, sep).len() ==> (#[trigger] segments(s, sep)[i]).len() > 0
            && !segments(s, sep)[i].contains(sep),
        segments(s, sep).flatten() == s.filter(|c: char| c != sep),
{
    lemma_segments_state(s, sep);
    let (done, cur) = segments_state(s, sep);
    if cur.len() > 0 {
        lemma_flatten_push(done, cur);
        assert forall|i: int| 0 <= i < done.push(cur).len() implies (#[trigger] done.push(cur)[i]).len() > 0
            && !done.push(cur)[i].contains(sep) by {
            if i < done.len() {
                assert(done.push(cur)[i] == done[i]);
            }
        }
    } else {
        assert(done.flatten() + cur =~= done.flatten());
    }
}

proof fn lemma_flatten_push(ss: Seq<Seq<char>>, x: Seq<char>)
    ensures
        ss.push(x).flatten() == ss.flatten() + x,
{
    ss.lemma_flatten_push(x);
}

proof fn lemma_segments_state(s: Seq<char>, sep: char)
    ensures
        forall|i: int| 0 <= i < segments_state(s, sep).0.len() ==> (#[trigger] segments_state(s, sep).0[i]).len() > 0
            && !segments_state(s, sep).0[i].contains(sep),
        !segments_state(s, sep).1.contains(sep),
        segments_state(s, sep).0.flatten() + segments_state(s, sep).1 == s.filter(|c: char| c != sep),
    decreases s.len(),
{
    let f = |c: char| c != sep;
    if s.len() == 0 {
        assert(s.filter(f) =~= Seq::<char>::empty());
        assert(Seq::<Seq<char>>::empty().flatten() =~= Seq::<char>::empty());
        assert(segments_state(s, sep).0.flatten() + segments_state(s, sep).1 =~= Seq::<char>::empty());
    } else {
        let init = s.drop_last();
        lemma_segments_state(init, sep);
        let (done, cur) = segments_state(init, sep);
        reveal_with_fuel(Seq::<_>::filter, 1);
        assert(s.drop_last() == init);
        if s.last() == sep {
            if cur.len() > 0 {
                lemma_flatten_push(done, cur);
                assert forall|i: int| 0 <= i < done.push(cur).len() implies (#[trigger] done.push(cur)[i]).len() > 0
                    && !done.push(cur)[i].contains(sep) by {
                    if i < done.len() {
                        assert(done.push(cur)[i] == done[i]);
                    }
                }
                assert(done.push(cur).flatten() + Seq::<char>::empty() =~= done.flatten() + cur);
            } else {
                assert(done.flatten() + Seq::<char>::empty() =~= done.flatten() + cur);
            }
        } else {
            assert(done.flatten() + cur.push(s.last()) =~= (done.flatten() + cur).push(s.last()));
            assert(!cur.push(s.last()).contains(sep)) by {
                if cur.push(s.last()).contains(sep) {
                    let k = choose|k: int| 0 <= k < cur.push(s.last()).len() && cur.push(s.last())[k] == sep;
                    if k < cur.len() {
                        assert(cur[k] == sep);
                    }
                }
            }
        }
    }
}

/// The texts of a list of strings.
pub open spec fn strings_view(v: Seq<String>) -> Seq<Seq<char>> {
    v.map_values(|s: String| s@)
}

/// The non-empty pieces of `s` between separators `sep`.
pub fn split_nonempty(s: &str, sep: char) -> (r: Vec<String>)
    ensures
        strings_view(r@) == segments(s@, sep),
{
    let v = chars_of(s);
    let mut done: Vec<String> = Vec::new();
    let mut start: usize = 0;
    let mut i: usize = 0;
    while i < v.len()
        invariant
            start <= i <= v.len(),
            v@ == s@,
            strings_view(done@) == segments_state(v@.take(i as int), sep).0,
            v@.subrange(start as int, i as int) == segments_state(v@.take(i as int), sep).1,
        decreases v.len() - i,
    {
        assert(v@.take(i + 1).drop_last() =~= v@.take(i as int));
        if v[i] == sep {
            if i > start {
                let piece = string_of(&v, start, i);
                let ghost before = done@;
                done.push(piece);
                assert(strings_view(done@) =~= strings_view(before).push(piece@));
            }
            i = i + 1;
            start = i;
            assert(v@.subrange(start as int, i as int) =~= Seq::<char>::empty());
        } else {
            i = i + 1;
            assert(v@.subrange(start as int, i as int) =~= v@.subrange(start as int, (i - 1) as int).push(
                v@[i - 1],
            ));
        }
    }
    assert(v@.take(v.len() as int) =~= v@);
    if start < v.len() {
        let piece = string_of(&v, start, v.len());
        let ghost before = done@;
        done.push(piece);
        assert(strings_view(done@) =~= strings_view(before).push(piece@));
    }
    done
}

/// `parts` joined with `sep` between consecutive ones.
pub open spec fn join_with(parts: Seq<Seq<char>>, sep: Seq<char>) -> Seq<char>
    decreases parts.len(),
{
    if parts.len() == 0 {
        seq![]
    } else if parts.len() == 1 {
        parts[0]
    } else {
        join_with(parts.drop_last(), sep) + sep + parts.last()
    }
}

/// `parts` joined with `sep` between consecutive ones.
pub fn join_strings(parts: &Vec<String>, sep: &str) -> (r: String)
    ensures
        r@ == join_with(strings_view(parts@), sep@),
{
    let mut out = String::new();
    let mut i: usize = 0;
    while i < parts.len()
        invariant
            i <= parts.len(),
            out@ == join_with(strings_view(parts@.take(i as int)), sep@),
        decreases parts.len() - i,
    {
        let ghost before = strings_view(parts@.take(i as int));
        if i > 0 {
            out.append(sep);
        }
        out.append(parts[i].as_str());
        proof {
            let now = strings_view(parts@.take(i + 1));
            assert(now.drop_last() =~= before);
            assert(now.last() == parts@[i as int]@);
            if i == 0 {
                assert(out@ =~= now[0]);
            }
        }
        i = i + 1;
    }
    assert(parts@.take(parts.len() as int) =~= parts@);
    out
}

} // verus!
