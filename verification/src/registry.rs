//! Aggregation across providers: a failing provider is recorded, never fatal.
use vstd::prelude::*;

use crate::model::{AutostartEntry, EntryView, entries_view};

verus! {

/// An error raised by a single provider during aggregation, tagged with its source.
///
/// Aggregation never fails as a whole: a provider that errors contributes a
/// `ProviderError` while every other provider's good results are still returned.
pub struct ProviderError<E> {
    /// The id of the provider that failed.
    pub source: &'static str,
    /// The underlying error.
    pub error: E,
}

/// The result of aggregating entries across all available providers.
pub struct AggregateResult<E> {
    /// All entries successfully gathered, across providers.
    pub entries: Vec<AutostartEntry>,
    /// Per-provider failures, if any. Non-empty does not mean `entries` is empty.
    pub errors: Vec<ProviderError<E>>,
}

/// The errors, as `(source, error)` pairs.
pub open spec fn errors_view<E>(es: Seq<ProviderError<E>>) -> Seq<(Seq<char>, E)> {
    es.map_values(|e: ProviderError<E>| (e.source@, e.error))
}

/// What aggregating the providers' answers gives, in provider order: every entry of
/// every provider that answered, and one error per provider that failed.
pub open spec fn aggregate_spec<E>(rs: Seq<(&'static str, Result<Vec<AutostartEntry>, E>)>) -> (
    Seq<EntryView>,
    Seq<(Seq<char>, E)>,
)
    decreases rs.len(),
{
    if rs.len() == 0 {
        (seq![], seq![])
    } else {
        let (es, errs) = aggregate_spec(rs.drop_last());
        match rs.last().1 {
            Ok(v) => (es + entries_view(v@), errs),
            Err(e) => (es, errs.push((rs.last().0@, e))),
        }
    }
}

/// Aggregate the providers' answers: each provider's entries, or its error tagged
/// with its id. One provider's failure never drops another's entries.
pub fn aggregate<E>(results: Vec<(&'static str, Result<Vec<AutostartEntry>, E>)>) -> (r: AggregateResult<E>)
    ensures
        (entries_view(r.entries@), errors_view(r.errors@)) == aggregate_spec(results@),
{
    let ghost rs = results@;
    let n = results.len();
    let mut rest = results;
    let mut pending: Vec<(&'static str, Result<Vec<AutostartEntry>, E>)> = Vec::new();
    while rest.len() > 0
        invariant
            rest.len() + pending.len() == n == rs.len(),
            forall|k: int| 0 <= k < rest.len() ==> #[trigger] rest@[k] == rs[k],
            forall|k: int| 0 <= k < pending.len() ==> #[trigger] pending@[k] == rs[n - 1 - k],
        decreases rest.len(),
    {
        let x = rest.pop().unwrap();
        pending.push(x);
    }
    let mut entries: Vec<AutostartEntry> = Vec::new();
    let mut errors: Vec<ProviderError<E>> = Vec::new();
    let mut i: usize = 0;
    while pending.len() > 0
        invariant
            i + pending.len() == n == rs.len(),
            forall|k: int| 0 <= k < pending.len() ==> #[trigger] pending@[k] == rs[n - 1 - k],
            (entries_view(entries@), errors_view(errors@)) == aggregate_spec(rs.take(i as int)),
        decreases pending.len(),
    {
        let (source, res) = pending.pop().unwrap();
        assert(rs.take(i + 1).drop_last() =~= rs.take(i as int));
        assert(rs.take(i + 1).last() == rs[i as int]);
        match res {
            Ok(mut list) => {
                let ghost before = entries@;
                let ghost added = list@;
                entries.append(&mut list);
                assert(entries_view(entries@) =~= entries_view(before) + entries_view(added));
            },
            Err(error) => {
                let ghost before = errors@;
                errors.push(ProviderError { source, error });
                assert(errors_view(errors@) =~= errors_view(before).push((source@, error)));
            },
        }
        i = i + 1;
    }
    assert(rs.take(rs.len() as int) =~= rs);
    AggregateResult { entries, errors }
}

/// A provider that fails changes nothing in the entries gathered: they are those the
/// other providers would give without it.
pub proof fn law_failure_hides_nothing<E>(rs: Seq<(&'static str, Result<Vec<AutostartEntry>, E>)>, i: int)
    requires
        0 <= i < rs.len(),
        rs[i].1 is Err,
    ensures
        aggregate_spec(rs).0 == aggregate_spec(rs.remove(i)).0,
        aggregate_spec(rs).1.contains((rs[i].0@, rs[i].1->Err_0)),
    decreases rs.len(),
{
    let n = rs.len() - 1;
    rs.remove_ensures(i);
    if i == n {
        assert(rs.remove(i) =~= rs.drop_last());
        let errs = aggregate_spec(rs.drop_last()).1;
        assert(errs.push((rs[i].0@, rs[i].1->Err_0))[errs.len() as int] == (rs[i].0@, rs[i].1->Err_0));
    } else {
        law_failure_hides_nothing(rs.drop_last(), i);
        assert(rs.remove(i).drop_last() =~= rs.drop_last().remove(i));
        assert(rs.remove(i).last() == rs.last());
        let errs = aggregate_spec(rs.drop_last()).1;
        let x = (rs[i].0@, rs[i].1->Err_0);
        assert(rs.drop_last()[i] == rs[i]);
        if let Err(e) = rs.last().1 {
            let w = choose|w: int| 0 <= w < errs.len() && errs[w] == x;
            assert(errs.push((rs.last().0@, e))[w] == x);
        }
    }
}

/// Every entry of a provider that answered is among the entries gathered, and a list in
/// which every provider answered gathers no error.
pub proof fn law_answers_gathered<E>(rs: Seq<(&'static str, Result<Vec<AutostartEntry>, E>)>, i: int, k: int)
    requires
        0 <= i < rs.len(),
        rs[i].1 matches Ok(v) && 0 <= k < v.len(),
    ensures
        aggregate_spec(rs).0.contains(rs[i].1->Ok_0@[k]@),
        (forall|j: int| 0 <= j < rs.len() ==> (#[trigger] rs[j]).1 is Ok) ==> aggregate_spec(rs).1.len() == 0,
    decreases rs.len(),
{
    let n = rs.len() - 1;
    let (es, errs) = aggregate_spec(rs.drop_last());
    if i == n {
        let v = rs[i].1->Ok_0;
        let x = v@[k]@;
        assert(entries_view(v@)[k] == x);
        assert((es + entries_view(v@))[es.len() + k] == x);
    } else {
        law_answers_gathered(rs.drop_last(), i, k);
        assert(rs.drop_last()[i] == rs[i]);
        let x = rs[i].1->Ok_0@[k]@;
        let w = choose|w: int| 0 <= w < es.len() && es[w] == x;
        if let Ok(v) = rs.last().1 {
            assert((es + entries_view(v@))[w] == x);
        }
    }
    if forall|j: int| 0 <= j < rs.len() ==> (#[trigger] rs[j]).1 is Ok {
        lemma_no_errors(rs);
    }
}

/// With every provider answering, no error is gathered.
proof fn lemma_no_errors<E>(rs: Seq<(&'static str, Result<Vec<AutostartEntry>, E>)>)
    requires
        forall|j: int| 0 <= j < rs.len() ==> (#[trigger] rs[j]).1 is Ok,
    ensures
        aggregate_spec(rs).1.len() == 0,
    decreases rs.len(),
{
    if rs.len() > 0 {
        assert forall|j: int| 0 <= j < rs.drop_last().len() implies (#[trigger] rs.drop_last()[j]).1 is Ok by {
            assert(rs.drop_last()[j] == rs[j]);
        }
        lemma_no_errors(rs.drop_last());
        assert(rs[rs.len() - 1].1 is Ok);
    }
}

/// The index of the first provider whose id is `id`.
pub fn find_provider_index(ids: &Vec<&'static str>, id: &str) -> (r: Option<usize>)
    ensures
        match r {
            Some(i) => i < ids.len() && ids@[i as int]@ == id@ && forall|k: int| 0 <= k < i ==> ids@[k]@ != id@,
            None => forall|k: int| 0 <= k < ids.len() ==> ids@[k]@ != id@,
        },
{
    let key = id.to_owned();
    let mut i: usize = 0;
    while i < ids.len()
        invariant
            i <= ids.len(),
            key@ == id@,
            forall|k: int| 0 <= k < i ==> ids@[k]@ != id@,
        decreases ids.len() - i,
    {
        if ids[i].to_owned() == key {
            return Some(i);
        }
        i = i + 1;
    }
    None
}

} // verus!
