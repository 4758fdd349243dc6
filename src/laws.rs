use vstd::prelude::*;
use crate::index::{occurrences, IndexView};
use crate::text::{lower_of, terms_of};

verus! {

/// The index that a run of `add` calls builds from the empty one, each call
/// given as (name, content).
pub open spec fn built(adds: Seq<(Seq<char>, Seq<char>)>) -> IndexView
    decreases adds.len(),
{
    if adds.len() == 0 {
        IndexView::empty()
    } else {
        built(adds.drop_last()).added(adds.last().0, adds.last().1)
    }
}

/// Document ids are handed out in order: after any run of `add` calls the
/// last id is the number of calls, and id `k + 1` names the document of the
/// call at `k`, whatever the contents.
pub proof fn lemma_ids_in_order(adds: Seq<(Seq<char>, Seq<char>)>)
    ensures
        built(adds).count == adds.len(),
        built(adds).docs.len() == adds.len(),
        forall|k: int| 0 <= k < adds.len() ==> #[trigger] built(adds).name_of((k + 1) as nat) == adds[k].0,
    decreases adds.len(),
{
    if adds.len() > 0 {
        let prev = adds.drop_last();
        lemma_ids_in_order(prev);
        assert forall|k: int| 0 <= k < adds.len() implies #[trigger] built(adds).name_of((k + 1) as nat)
            == adds[k].0 by {
            if k < adds.len() - 1 {
                assert(built(prev).name_of((k + 1) as nat) == prev[k].0);
            }
        }
    }
}

proof fn lemma_occurs_in(ts: Seq<Seq<char>>, t: Seq<char>)
    requires
        occurrences(ts, t) > 0,
    ensures
        ts.contains(t),
    decreases ts.len(),
{
    if ts.last() != t {
        lemma_occurs_in(ts.drop_last(), t);
        let i = choose|i: int| 0 <= i < ts.drop_last().len() && ts.drop_last()[i] == t;
        assert(ts[i] == t);
    } else {
        assert(ts[ts.len() - 1] == t);
    }
}

/// A term that no added document holds is found nowhere: a query for it
/// gives an empty list.
pub proof fn lemma_unseen_term_misses(adds: Seq<(Seq<char>, Seq<char>)>, t: Seq<char>)
    requires
        forall|k: int| 0 <= k < adds.len() ==> !(#[trigger] terms_of(adds[k].1)).contains(t),
    ensures
        !built(adds).postings.contains_key(t),
        built(adds).results(t) == Seq::<(Seq<char>, nat)>::empty(),
    decreases adds.len(),
{
    if adds.len() > 0 {
        let prev = adds.drop_last();
        assert forall|k: int| 0 <= k < prev.len() implies !(#[trigger] terms_of(prev[k].1)).contains(t) by {
            assert(prev[k] == adds[k]);
        }
        lemma_unseen_term_misses(prev, t);
        let ts = terms_of(adds.last().1);
        assert(!terms_of(adds[adds.len() - 1].1).contains(t));
        if occurrences(ts, t) > 0 {
            lemma_occurs_in(ts, t);
        }
    }
}

/// Queries are case-insensitive: two keys with the same lowercase form give
/// the same results.
pub proof fn lemma_search_case_insensitive(v: IndexView, k1: Seq<char>, k2: Seq<char>)
    requires
        lower_of(k1) == lower_of(k2),
    ensures
        v.results(lower_of(k1)) == v.results(lower_of(k2)),
{
}

} // verus!
