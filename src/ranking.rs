use vstd::prelude::*;
use crate::pairs::{has_key, keys_unique, lemma_lookup, pairs_to_map};

verus! {

/// An entry (document id, frequency) as plain numbers.
pub open spec fn entry_view(e: (u32, u32)) -> (nat, nat) {
    (e.0 as nat, e.1 as nat)
}

/// A sequence of entries as plain numbers.
pub open spec fn entries_view(s: Seq<(u32, u32)>) -> Seq<(nat, nat)> {
    s.map_values(|e: (u32, u32)| entry_view(e))
}

/// Entry `a` comes before entry `b` in a ranking: it has the lower frequency,
/// or the same frequency and the lower document id.
pub open spec fn before(a: (nat, nat), b: (nat, nat)) -> bool {
    a.1 < b.1 || (a.1 == b.1 && a.0 < b.0)
}

/// `r` lists each id of `table` once, with its frequency, in ascending order of
/// frequency, and among equal frequencies in ascending order of id.
pub open spec fn is_ranking(table: Map<nat, nat>, r: Seq<(nat, nat)>) -> bool {
    &&& forall|i: int|
        0 <= i < r.len() ==> #[trigger] table.contains_key(r[i].0) && table[r[i].0] == r[i].1
    &&& forall|id: nat| #[trigger]
        table.contains_key(id) ==> exists|i: int| 0 <= i < r.len() && r[i].0 == id
    &&& forall|i: int, j: int| 0 <= i < j < r.len() ==> before(#[trigger] r[i], #[trigger] r[j])
}

/// The ranking of the entries of `table` (there is exactly one: see
/// `lemma_ranking_unique`).
pub open spec fn ranking(table: Map<nat, nat>) -> Seq<(nat, nat)> {
    choose|r: Seq<(nat, nat)>| is_ranking(table, r)
}

proof fn lemma_ranking_tail(t: Map<nat, nat>, a: Seq<(nat, nat)>)
    requires
        is_ranking(t, a),
        a.len() > 0,
    ensures
        is_ranking(t.remove(a[0].0), a.drop_first()),
{
    let id = a[0].0;
    let t2 = t.remove(id);
    let d = a.drop_first();
    assert forall|i: int| 0 <= i < d.len() implies #[trigger] t2.contains_key(d[i].0) && t2[d[i].0]
        == d[i].1 by {
        assert(d[i] == a[i + 1]);
        assert(before(a[0], a[i + 1]));
        assert(t.contains_key(a[i + 1].0));
    }
    assert forall|x: nat| #[trigger] t2.contains_key(x) implies exists|i: int|
        0 <= i < d.len() && d[i].0 == x by {
        assert(t.contains_key(x));
        let i = choose|i: int| 0 <= i < a.len() && a[i].0 == x;
        assert(i != 0);
        assert(d[i - 1] == a[i]);
    }
    assert forall|i: int, j: int| 0 <= i < j < d.len() implies before(
        #[trigger] d[i],
        #[trigger] d[j],
    ) by {
        assert(d[i] == a[i + 1] && d[j] == a[j + 1]);
    }
}

/// A table has at most one ranking.
pub proof fn lemma_ranking_unique(t: Map<nat, nat>, a: Seq<(nat, nat)>, b: Seq<(nat, nat)>)
    requires
        is_ranking(t, a),
        is_ranking(t, b),
    ensures
        a == b,
    decreases a.len(),
{
    if a.len() == 0 {
        if b.len() > 0 {
            assert(t.contains_key(b[0].0));
        }
        assert(a =~= b);
    } else {
        let id = a[0].0;
        assert(t.contains_key(id));
        let k = choose|k: int| 0 <= k < b.len() && b[k].0 == id;
        assert(t.contains_key(b[k].0));
        assert(b[k] == a[0]);
        assert(t.contains_key(b[0].0));
        let m = choose|m: int| 0 <= m < a.len() && a[m].0 == b[0].0;
        assert(t.contains_key(a[m].0));
        assert(a[m] == b[0]);
        if k > 0 {
            assert(before(b[0], b[k]));
            if m > 0 {
                assert(before(a[0], a[m]));
            }
        }
        assert(b[0] == a[0]);
        lemma_ranking_tail(t, a);
        lemma_ranking_tail(t, b);
        lemma_ranking_unique(t.remove(id), a.drop_first(), b.drop_first());
        assert(a =~= seq![a[0]] + a.drop_first());
        assert(b =~= seq![b[0]] + b.drop_first());
    }
}

/// A ranking that exists is the one that `ranking` names.
pub proof fn lemma_ranking_is(t: Map<nat, nat>, r: Seq<(nat, nat)>)
    requires
        is_ranking(t, r),
    ensures
        ranking(t) == r,
{
    lemma_ranking_unique(t, ranking(t), r);
}

fn precedes(a: (u32, u32), b: (u32, u32)) -> (r: bool)
    ensures
        r == before(entry_view(a), entry_view(b)),
{
    a.1 < b.1 || (a.1 == b.1 && a.0 < b.0)
}

/// The entries of `s` stand in ranking order.
pub open spec fn ranked(s: Seq<(u32, u32)>) -> bool {
    forall|a: int, b: int|
        0 <= a < b < s.len() ==> before(#[trigger] entry_view(s[a]), #[trigger] entry_view(s[b]))
}

/// Inserts `x` into the ranked `out` at its place; `x` shares its id with no
/// entry of `out`.
fn insert_ranked(out: &mut Vec<(u32, u32)>, x: (u32, u32)) -> (pos: usize)
    requires
        ranked(old(out)@),
        forall|k: int| 0 <= k < old(out)@.len() ==> #[trigger] old(out)@[k].0 != x.0,
    ensures
        pos <= old(out)@.len(),
        final(out)@ == old(out)@.insert(pos as int, x),
        ranked(final(out)@),
{
    let mut pos: usize = 0;
    while pos < out.len() && precedes(out[pos], x)
        invariant
            0 <= pos <= out@.len(),
            forall|k: int| 0 <= k < pos ==> before(#[trigger] entry_view(out@[k]), entry_view(x)),
        decreases out@.len() - pos,
    {
        pos = pos + 1;
    }
    let ghost prev = out@;
    assert forall|k: int| pos <= k < prev.len() implies before(
        entry_view(x),
        #[trigger] entry_view(prev[k]),
    ) by {
        assert(prev[pos as int].0 != x.0);
        if k > pos {
            assert(before(entry_view(prev[pos as int]), entry_view(prev[k])));
        }
    }
    out.insert(pos, x);
    assert forall|a: int, b: int| 0 <= a < b < out@.len() implies before(
        #[trigger] entry_view(out@[a]),
        #[trigger] entry_view(out@[b]),
    ) by {
        if b < pos {
            assert(before(entry_view(prev[a]), entry_view(prev[b])));
        } else if b == pos {
        } else if a < pos {
            assert(before(entry_view(prev[a]), entry_view(x)));
            assert(before(entry_view(x), entry_view(prev[b - 1])));
        } else if a == pos {
            assert(before(entry_view(x), entry_view(prev[b - 1])));
        } else {
            assert(before(entry_view(prev[a - 1]), entry_view(prev[b - 1])));
        }
    }
    pos
}

/// `x` is one of the first `n` entries of `s`.
pub open spec fn among(s: Seq<(u32, u32)>, n: int, x: (u32, u32)) -> bool {
    exists|j: int| 0 <= j < n && s[j] == x
}

/// Orders the entries of a frequency table: ascending by frequency, ties in
/// ascending order of id.
pub fn rank_entries(entries: &Vec<(u32, u32)>) -> (out: Vec<(u32, u32)>)
    requires
        keys_unique(entries_view(entries@)),
    ensures
        out@.len() == entries@.len(),
        is_ranking(pairs_to_map(entries_view(entries@)), entries_view(out@)),
{
    let ghost e = entries@;
    let ghost ev = entries_view(e);
    let mut out: Vec<(u32, u32)> = Vec::new();
    let mut i: usize = 0;
    while i < entries.len()
        invariant
            e == entries@,
            ev == entries_view(e),
            keys_unique(ev),
            0 <= i <= e.len(),
            out@.len() == i,
            ranked(out@),
            forall|k: int| 0 <= k < out@.len() ==> #[trigger] among(e, i as int, out@[k]),
            forall|j: int| 0 <= j < i ==> #[trigger] among(out@, out@.len() as int, e[j]),
        decreases e.len() - i,
    {
        let x = entries[i];
        assert forall|k: int| 0 <= k < out@.len() implies #[trigger] out@[k].0 != x.0 by {
            assert(among(e, i as int, out@[k]));
            let j = choose|j: int| 0 <= j < i && e[j] == out@[k];
            assert(ev[j].0 != ev[i as int].0);
        }
        let ghost prev = out@;
        let pos = insert_ranked(&mut out, x);
        assert forall|k: int| 0 <= k < out@.len() implies #[trigger] among(e, i + 1, out@[k]) by {
            if k < pos {
                assert(out@[k] == prev[k]);
                assert(among(e, i as int, prev[k]));
            } else if k == pos {
                assert(e[i as int] == out@[k]);
            } else {
                assert(out@[k] == prev[k - 1]);
                assert(among(e, i as int, prev[k - 1]));
            }
        }
        assert forall|j: int| 0 <= j < i + 1 implies #[trigger] among(
            out@,
            out@.len() as int,
            e[j],
        ) by {
            if j == i {
                assert(out@[pos as int] == e[j]);
            } else {
                assert(among(prev, prev.len() as int, e[j]));
                let k = choose|k: int| 0 <= k < prev.len() && prev[k] == e[j];
                if k < pos {
                    assert(out@[k] == e[j]);
                } else {
                    assert(out@[k + 1] == e[j]);
                }
            }
        }
        i = i + 1;
    }
    proof {
        lemma_ranked_entries(e, out@);
    }
    out
}

proof fn lemma_ranked_entries(e: Seq<(u32, u32)>, out: Seq<(u32, u32)>)
    requires
        keys_unique(entries_view(e)),
        ranked(out),
        forall|k: int| 0 <= k < out.len() ==> #[trigger] among(e, e.len() as int, out[k]),
        forall|j: int| 0 <= j < e.len() ==> #[trigger] among(out, out.len() as int, e[j]),
    ensures
        is_ranking(pairs_to_map(entries_view(e)), entries_view(out)),
{
    let ev = entries_view(e);
    let ov = entries_view(out);
    let t = pairs_to_map(ev);
    assert forall|k: int| 0 <= k < ov.len() implies #[trigger] t.contains_key(ov[k].0) && t[ov[k].0]
        == ov[k].1 by {
        assert(among(e, e.len() as int, out[k]));
        let j = choose|j: int| 0 <= j < e.len() && e[j] == out[k];
        assert(ev[j] == ov[k]);
        lemma_lookup(ev, j);
    }
    assert forall|id: nat| #[trigger] t.contains_key(id) implies exists|k: int|
        0 <= k < ov.len() && ov[k].0 == id by {
        assert(has_key(ev, id));
        let j = choose|j: int| 0 <= j < ev.len() && ev[j].0 == id;
        assert(ev[j] == entry_view(e[j]));
        assert(among(out, out.len() as int, e[j]));
        let k = choose|k: int| 0 <= k < out.len() && out[k] == e[j];
        assert(ov[k] == ev[j]);
    }
    assert forall|a: int, b: int| 0 <= a < b < ov.len() implies before(
        #[trigger] ov[a],
        #[trigger] ov[b],
    ) by {
        assert(ov[a] == entry_view(out[a]) && ov[b] == entry_view(out[b]));
    }
}

} // verus!
