use vstd::prelude::*;
use crate::pairs::{has_key, keys_unique, lemma_lookup, lemma_push, lemma_update, pairs_to_map};
use crate::ranking::{entries_view, entry_view, lemma_ranking_is, rank_entries, ranking};
use crate::text::{lemma_words_len, lowercase, split_words, terms_of, words_of, lower_of};

verus! {

/// What an index holds, as plain values.
pub struct IndexView {
    /// The last document id handed out (0 while the index is empty).
    pub count: nat,
    /// The document names: the name of document `id` stands at `id - 1`.
    pub docs: Seq<Seq<char>>,
    /// For each term, its frequency table: document id to number of occurrences.
    pub postings: Map<Seq<char>, Map<nat, nat>>,
}

/// How often `t` occurs in `ts`.
pub open spec fn occurrences(ts: Seq<Seq<char>>, t: Seq<char>) -> nat
    decreases ts.len(),
{
    if ts.len() == 0 {
        0
    } else {
        occurrences(ts.drop_last(), t) + if ts.last() == t { 1nat } else { 0nat }
    }
}

/// The frequency table of `t` in `p`, empty where `p` does not know `t`.
pub open spec fn table_of(p: Map<Seq<char>, Map<nat, nat>>, t: Seq<char>) -> Map<nat, nat> {
    if p.contains_key(t) {
        p[t]
    } else {
        Map::empty()
    }
}

/// The postings `p` after document `id` has been added with the terms `ts`:
/// each term of `ts` gains the entry `id`, with the number of times it occurs
/// in `ts`.
pub open spec fn with_terms(p: Map<Seq<char>, Map<nat, nat>>, ts: Seq<Seq<char>>, id: nat) -> Map<
    Seq<char>,
    Map<nat, nat>,
> {
    Map::new(
        |t: Seq<char>| p.contains_key(t) || occurrences(ts, t) > 0,
        |t: Seq<char>|
            if occurrences(ts, t) > 0 {
                table_of(p, t).insert(id, occurrences(ts, t))
            } else {
                p[t]
            },
    )
}

/// The postings `p` after one more occurrence of `t` in document `id`.
pub open spec fn register(p: Map<Seq<char>, Map<nat, nat>>, t: Seq<char>, id: nat) -> Map<
    Seq<char>,
    Map<nat, nat>,
> {
    let f = table_of(p, t);
    p.insert(t, f.insert(id, if f.contains_key(id) { f[id] + 1 } else { 1 }))
}

impl IndexView {
    /// The empty index.
    pub open spec fn empty() -> IndexView {
        IndexView { count: 0, docs: seq![], postings: Map::empty() }
    }

    /// The name under which document `id` was added.
    pub open spec fn name_of(self, id: nat) -> Seq<char> {
        self.docs[id - 1]
    }

    /// The index after a document `name` with text `content` is added: it gets
    /// the next id, and each of its terms counts its occurrences there.
    pub open spec fn added(self, name: Seq<char>, content: Seq<char>) -> IndexView {
        IndexView {
            count: self.count + 1,
            docs: self.docs.push(name),
            postings: with_terms(self.postings, terms_of(content), self.count + 1),
        }
    }

    /// What a query for the term `t` gives: the documents that hold `t`, by
    /// name and with the number of occurrences, the least frequent first and
    /// equal frequencies in the order the documents were added; nothing where
    /// no document holds `t`.
    pub open spec fn results(self, t: Seq<char>) -> Seq<(Seq<char>, nat)> {
        if self.postings.contains_key(t) {
            ranking(self.postings[t]).map_values(|e: (nat, nat)| (self.name_of(e.0), e.1))
        } else {
            seq![]
        }
    }
}

/// A result list as plain values.
pub open spec fn results_view(r: Seq<(String, u32)>) -> Seq<(Seq<char>, nat)> {
    r.map_values(|e: (String, u32)| (e.0@, e.1 as nat))
}

/// `f` is a well-formed frequency table of an index whose last id is
/// `count`: not empty, ids in ascending order between 1 and `count`, and
/// every count at least 1.
pub open spec fn entries_ok(f: Seq<(u32, u32)>, count: nat) -> bool {
    &&& f.len() > 0
    &&& forall|a: int, b: int| 0 <= a < b < f.len() ==> #[trigger] f[a].0 < #[trigger] f[b].0
    &&& forall|a: int| 0 <= a < f.len() ==> 1 <= #[trigger] f[a].0 <= count && f[a].1 >= 1
}

/// The parts of an index as plain collections fit together: document `k + 1`
/// stands at `k`, no term comes twice, and every frequency table is well
/// formed.
pub open spec fn parts_valid(count: u32, docs: Seq<(u32, String)>, terms: Seq<(String, Vec<(u32, u32)>)>) -> bool {
    &&& docs.len() == count
    &&& forall|k: int| 0 <= k < docs.len() ==> #[trigger] docs[k].0 == k + 1
    &&& forall|a: int, b: int|
        0 <= a < terms.len() && 0 <= b < terms.len() && #[trigger] terms[a].0@ == #[trigger] terms[b].0@
            ==> a == b
    &&& forall|a: int| 0 <= a < terms.len() ==> entries_ok(#[trigger] terms[a].1@, count as nat)
}

/// The index that parts stand for.
pub open spec fn parts_view(count: u32, docs: Seq<(u32, String)>, terms: Seq<(String, Vec<(u32, u32)>)>) -> IndexView {
    IndexView {
        count: count as nat,
        docs: docs.map_values(|d: (u32, String)| d.1@),
        postings: pairs_to_map(
            terms.map_values(|e: (String, Vec<(u32, u32)>)| (e.0@, pairs_to_map(entries_view(e.1@)))),
        ),
    }
}

fn copy_entries(f: &Vec<(u32, u32)>) -> (r: Vec<(u32, u32)>)
    ensures
        r@ == f@,
{
    let mut r: Vec<(u32, u32)> = Vec::new();
    let mut i: usize = 0;
    while i < f.len()
        invariant
            0 <= i <= f@.len(),
            r@ == f@.take(i as int),
        decreases f@.len() - i,
    {
        r.push(f[i]);
        i = i + 1;
        assert(r@ =~= f@.take(i as int));
    }
    assert(f@.take(f@.len() as int) =~= f@);
    r
}

fn check_entries(f: &Vec<(u32, u32)>, count: u32) -> (r: bool)
    ensures
        r == entries_ok(f@, count as nat),
{
    if f.len() == 0 {
        return false;
    }
    let mut i: usize = 0;
    while i < f.len()
        invariant
            0 <= i <= f@.len(),
            f@.len() > 0,
            forall|a: int, b: int| 0 <= a < b < i ==> #[trigger] f@[a].0 < #[trigger] f@[b].0,
            forall|a: int| 0 <= a < i ==> 1 <= #[trigger] f@[a].0 <= count && f@[a].1 >= 1,
        decreases f@.len() - i,
    {
        let e = f[i];
        if e.0 < 1 || e.0 > count || e.1 < 1 {
            return false;
        }
        if i > 0 && f[i - 1].0 >= e.0 {
            return false;
        }
        assert forall|a: int, b: int| 0 <= a < b < i + 1 implies #[trigger] f@[a].0 < #[trigger] f@[b].0 by {
            if b == i && a < i - 1 {
                assert(f@[a].0 < f@[i - 1].0);
            }
        }
        i = i + 1;
    }
    true
}

/// One term with its frequency table, as (document id, count) entries in
/// ascending order of id.
#[derive(Debug, Clone)]
struct Posting {
    term: String,
    freqs: Vec<(u32, u32)>,
}

impl Posting {
    spec fn table(self) -> Map<nat, nat> {
        pairs_to_map(entries_view(self.freqs@))
    }

    spec fn wf(self, count: nat) -> bool {
        entries_ok(self.freqs@, count)
    }
}

spec fn postings_view(ps: Seq<Posting>) -> Seq<(Seq<char>, Map<nat, nat>)> {
    ps.map_values(|p: Posting| (p.term@, p.table()))
}

impl Default for Index {
    /// The empty index.
    fn default() -> (r: Self)
        ensures
            r.wf(),
            r@ == IndexView::empty(),
    {
        let r = Index { count: 0, docs: Vec::new(), terms: Vec::new() };
        proof {
            assert(r@.docs =~= Seq::<Seq<char>>::empty());
            assert(r@.postings =~= Map::<Seq<char>, Map<nat, nat>>::empty());
        }
        r
    }
}

/// An inverted index: documents under names, and for each term the documents
/// that hold it with the number of times they do.
#[derive(Debug, Clone)]
pub struct Index {
    count: u32,
    docs: Vec<String>,
    terms: Vec<Posting>,
}

impl View for Index {
    type V = IndexView;

    closed spec fn view(&self) -> IndexView {
        IndexView {
            count: self.count as nat,
            docs: self.docs@.map_values(|d: String| d@),
            postings: pairs_to_map(postings_view(self.terms@)),
        }
    }
}

proof fn lemma_ascending_unique(f: Seq<(u32, u32)>)
    requires
        forall|a: int, b: int| 0 <= a < b < f.len() ==> #[trigger] f[a].0 < #[trigger] f[b].0,
    ensures
        keys_unique(entries_view(f)),
{
    let ev = entries_view(f);
    assert forall|a: int, b: int| 0 <= a < ev.len() && 0 <= b < ev.len() && ev[a].0 == ev[b].0 implies a
        == b by {
        assert(ev[a] == entry_view(f[a]) && ev[b] == entry_view(f[b]));
        if a < b {
            assert(f[a].0 < f[b].0);
        } else if b < a {
            assert(f[b].0 < f[a].0);
        }
    }
}


/// A term occurs no more often than there are terms.
pub proof fn lemma_occurrences_bound(ts: Seq<Seq<char>>, t: Seq<char>)
    ensures
        occurrences(ts, t) <= ts.len(),
    decreases ts.len(),
{
    if ts.len() > 0 {
        lemma_occurrences_bound(ts.drop_last(), t);
    }
}

proof fn lemma_with_terms_step(p: Map<Seq<char>, Map<nat, nat>>, ts: Seq<Seq<char>>, i: int, id: nat)
    requires
        0 <= i < ts.len(),
        forall|t: Seq<char>| #[trigger] p.contains_key(t) ==> !p[t].contains_key(id),
    ensures
        with_terms(p, ts.take(i + 1), id) == register(with_terms(p, ts.take(i), id), ts[i], id),
{
    let a = ts.take(i);
    let b = ts.take(i + 1);
    assert(b.drop_last() =~= a);
    let wa = with_terms(p, a, id);
    let wb = with_terms(p, b, id);
    let r = register(wa, ts[i], id);
    assert forall|t: Seq<char>| #[trigger] wb.contains_key(t) == r.contains_key(t) by {}
    assert forall|t: Seq<char>| #[trigger] wb.contains_key(t) implies wb[t] == r[t] by {
        if t == ts[i] {
            let f = table_of(wa, t);
            if occurrences(a, t) > 0 {
                assert(f == table_of(p, t).insert(id, occurrences(a, t)));
                assert(wb[t] =~= r[t]);
            } else {
                assert(f == table_of(p, t));
                assert(!f.contains_key(id));
                assert(wb[t] =~= r[t]);
            }
        }
    }
    assert(wb =~= r);
}

proof fn lemma_with_terms_none(p: Map<Seq<char>, Map<nat, nat>>, ts: Seq<Seq<char>>, id: nat)
    requires
        ts.len() == 0,
    ensures
        with_terms(p, ts, id) == p,
{
    assert(with_terms(p, ts, id) =~= p);
}

impl Index {
    /// Every term is stored once, and each frequency table is well formed
    /// and names documents that exist.
    pub closed spec fn wf(&self) -> bool {
        &&& self.count as nat == self.docs@.len()
        &&& keys_unique(postings_view(self.terms@))
        &&& forall|i: int| 0 <= i < self.terms@.len() ==> #[trigger] self.terms@[i].wf(self.count as nat)
    }

    proof fn lemma_table(&self, i: int)
        requires
            self.wf(),
            0 <= i < self.terms@.len(),
        ensures
            self@.postings.contains_key(self.terms@[i].term@),
            self@.postings[self.terms@[i].term@] == self.terms@[i].table(),
            keys_unique(entries_view(self.terms@[i].freqs@)),
            forall|id: nat| #[trigger] self.terms@[i].table().contains_key(id) ==> 1 <= id <= self.count,
    {
        let pv = postings_view(self.terms@);
        assert(pv[i] == (self.terms@[i].term@, self.terms@[i].table()));
        lemma_lookup(pv, i);
        let f = self.terms@[i].freqs@;
        assert(self.terms@[i].wf(self.count as nat));
        lemma_ascending_unique(f);
        assert forall|id: nat| #[trigger] self.terms@[i].table().contains_key(id) implies 1 <= id
            <= self.count by {
            let ev = entries_view(f);
            assert(has_key(ev, id));
            let j = choose|j: int| 0 <= j < ev.len() && ev[j].0 == id;
            assert(ev[j] == entry_view(f[j]));
        }
    }

    /// Looks up the position of term `t`.
    fn find(&self, t: &String) -> (r: Option<usize>)
        requires
            self.wf(),
        ensures
            match r {
                Some(i) => i < self.terms@.len() && self.terms@[i as int].term@ == t@,
                None => !self@.postings.contains_key(t@),
            },
    {
        let mut i: usize = 0;
        while i < self.terms.len()
            invariant
                0 <= i <= self.terms@.len(),
                forall|j: int| 0 <= j < i ==> #[trigger] self.terms@[j].term@ != t@,
            decreases self.terms@.len() - i,
        {
            if self.terms[i].term == *t {
                return Some(i);
            }
            i = i + 1;
        }
        proof {
            let pv = postings_view(self.terms@);
            if has_key(pv, t@) {
                let j = choose|j: int| 0 <= j < pv.len() && pv[j].0 == t@;
                assert(pv[j].0 == self.terms@[j].term@);
            }
        }
        None
    }

    /// Queries the index for one term: `key` is lowercased and matched whole.
    pub fn search(&self, key: &str) -> (r: Vec<(String, u32)>)
        requires
            self.wf(),
        ensures
            results_view(r@) == self@.results(lower_of(key@)),
    {
        let term = lowercase(key);
        let found = self.find(&term);
        match found {
            None => {
                let r: Vec<(String, u32)> = Vec::new();
                assert(results_view(r@) =~= self@.results(lower_of(key@)));
                r
            },
            Some(k) => {
                proof {
                    self.lemma_table(k as int);
                }
                let ghost table = self.terms@[k as int].table();
                let ranked = rank_entries(&self.terms[k].freqs);
                proof {
                    lemma_ranking_is(table, entries_view(ranked@));
                }
                let mut out: Vec<(String, u32)> = Vec::new();
                let mut i: usize = 0;
                while i < ranked.len()
                    invariant
                        self.wf(),
                        0 <= i <= ranked@.len(),
                        ranking(table) == entries_view(ranked@),
                        forall|id: nat| #[trigger] table.contains_key(id) ==> 1 <= id <= self.count,
                        forall|j: int| 0 <= j < ranked@.len() ==> #[trigger] table.contains_key(
                            entries_view(ranked@)[j].0,
                        ),
                        out@.len() == i,
                        forall|j: int|
                            0 <= j < i ==> #[trigger] results_view(out@)[j] == (
                                self@.name_of(ranked@[j].0 as nat),
                                ranked@[j].1 as nat,
                            ),
                    decreases ranked@.len() - i,
                {
                    let e = ranked[i];
                    assert(entries_view(ranked@)[i as int] == entry_view(e));
                    assert(table.contains_key(e.0 as nat));
                    let name = self.docs[(e.0 - 1) as usize].clone();
                    let ghost prev = out@;
                    out.push((name, e.1));
                    assert forall|j: int| 0 <= j < i + 1 implies #[trigger] results_view(out@)[j] == (
                        self@.name_of(ranked@[j].0 as nat),
                        ranked@[j].1 as nat,
                    ) by {
                        if j < i {
                            assert(out@[j] == prev[j]);
                            assert(results_view(prev)[j] == results_view(out@)[j]);
                        }
                    }
                    i = i + 1;
                }
                proof {
                    let rs = self@.results(lower_of(key@));
                    assert(self@.postings[term@] == table);
                    assert forall|j: int| 0 <= j < rs.len() implies results_view(out@)[j] == rs[j] by {
                        assert(entries_view(ranked@)[j] == entry_view(ranked@[j]));
                    }
                    assert(results_view(out@) =~= rs);
                }
                out
            },
        }
    }

    proof fn lemma_ids_bounded(&self)
        requires
            self.wf(),
        ensures
            forall|t: Seq<char>, id: nat|
                #[trigger] self@.postings.contains_key(t) && #[trigger] self@.postings[t].contains_key(id)
                    ==> 1 <= id <= self.count,
    {
        assert forall|t: Seq<char>, id: nat|
            #[trigger] self@.postings.contains_key(t) && #[trigger] self@.postings[t].contains_key(id)
            implies 1 <= id <= self.count by {
            let pv = postings_view(self.terms@);
            assert(has_key(pv, t));
            let j = choose|j: int| 0 <= j < pv.len() && pv[j].0 == t;
            assert(pv[j] == (self.terms@[j].term@, self.terms@[j].table()));
            self.lemma_table(j);
            assert(self.terms@[j].table().contains_key(id));
        }
    }

    /// Counts one more occurrence of `term` in the newest document `id`.
    fn register(&mut self, term: String, id: u32)
        requires
            old(self).wf(),
            id == old(self).count,
            id >= 1,
            old(self)@.postings.contains_key(term@) && old(self)@.postings[term@].contains_key(id as nat)
                ==> old(self)@.postings[term@][id as nat] < u32::MAX,
        ensures
            final(self).wf(),
            final(self).count == old(self).count,
            final(self)@.count == old(self)@.count,
            final(self)@.docs == old(self)@.docs,
            final(self)@.postings == register(old(self)@.postings, term@, id as nat),
    {
        let ghost pv0 = postings_view(self.terms@);
        match self.find(&term) {
            Some(k) => {
                proof {
                    self.lemma_table(k as int);
                }
                let ghost prior = self.terms@[k as int];
                let ghost ev0 = entries_view(prior.freqs@);
                assert(prior.wf(self.count as nat));
                let n = self.terms[k].freqs.len();
                let last = self.terms[k].freqs[n - 1];
                if last.0 == id {
                    proof {
                        assert(ev0[n - 1] == entry_view(last));
                        lemma_lookup(ev0, n - 1);
                        lemma_update(ev0, n - 1, (last.1 + 1) as nat);
                    }
                    self.terms[k].freqs[n - 1] = (id, last.1 + 1);
                    proof {
                        assert(entries_view(self.terms@[k as int].freqs@) =~= ev0.update(
                            n - 1,
                            (ev0[n - 1].0, (last.1 + 1) as nat),
                        ));
                    }
                } else {
                    proof {
                        assert forall|j: int| 0 <= j < ev0.len() implies ev0[j].0 != id by {
                            assert(ev0[j] == entry_view(prior.freqs@[j]));
                            if j < n - 1 {
                                assert(prior.freqs@[j].0 < prior.freqs@[n - 1].0);
                            }
                        }
                        lemma_push(ev0, id as nat, 1);
                    }
                    self.terms[k].freqs.push((id, 1));
                    proof {
                        assert(entries_view(self.terms@[k as int].freqs@) =~= ev0.push((id as nat, 1)));
                    }
                }
                proof {
                    let updated = self.terms@[k as int];
                    assert(updated.term == prior.term);
                    assert(pv0[k as int] == (prior.term@, prior.table()));
                    lemma_update(pv0, k as int, updated.table());
                    assert(postings_view(self.terms@) =~= pv0.update(k as int, (pv0[k as int].0, updated.table())));
                    assert(updated.wf(self.count as nat));
                    assert(forall|i: int| 0 <= i < self.terms@.len() && i != k ==> self.terms@[i] == old(self).terms@[i]);
                    assert(self.wf());
                    assert(self@.postings =~= register(old(self)@.postings, term@, id as nat));
                }
            },
            None => {
                let mut freqs: Vec<(u32, u32)> = Vec::new();
                freqs.push((id, 1));
                let ghost updated = Posting { term: term, freqs: freqs };
                proof {
                    assert(!has_key(pv0, term@));
                    lemma_push(seq![], id as nat, 1nat);
                    assert(entries_view(freqs@) =~= seq![].push((id as nat, 1nat)));
                    assert(pairs_to_map(Seq::<(nat, nat)>::empty()) =~= Map::empty());
                    lemma_push(pv0, term@, updated.table());
                }
                self.terms.push(Posting { term, freqs });
                proof {
                    assert(postings_view(self.terms@) =~= pv0.push((term@, updated.table())));
                    assert(self.terms@.last() == updated);
                    assert(self.wf());
                    assert(self@.postings =~= register(old(self)@.postings, term@, id as nat));
                }
            },
        }
        assert(self@.docs == old(self)@.docs);
    }

    /// Adds a document under `name` (names need not be unique): it gets the
    /// next id, and each whitespace-separated word of `content`, lowercased,
    /// counts one occurrence in it.
    pub fn add(&mut self, name: &str, content: &str)
        requires
            old(self).wf(),
            old(self)@.count < u32::MAX,
            content@.len() <= u32::MAX,
        ensures
            final(self).wf(),
            final(self)@ == old(self)@.added(name@, content@),
    {
        let ghost v0 = self@;
        proof {
            self.lemma_ids_bounded();
        }
        self.count = self.count + 1;
        self.docs.push(name.to_owned());
        let id = self.count;
        let ghost ts = terms_of(content@);
        let words = split_words(content);
        proof {
            lemma_words_len(content@);
            assert(words@.len() == words_of(content@).len());
            lemma_with_terms_none(v0.postings, ts.take(0), id as nat);
            assert(self@.docs =~= v0.docs.push(name@));
            assert forall|i: int| 0 <= i < self.terms@.len() implies #[trigger] self.terms@[i].wf(
                self.count as nat,
            ) by {
                assert(old(self).terms@[i].wf(old(self).count as nat));
            }
        }
        let mut i: usize = 0;
        while i < words.len()
            invariant
                self.wf(),
                self.count == id,
                id as nat == v0.count + 1,
                self@.count == v0.count + 1,
                self@.docs == v0.docs.push(name@),
                self@.postings == with_terms(v0.postings, ts.take(i as int), id as nat),
                forall|t: Seq<char>| #[trigger] v0.postings.contains_key(t) ==> !v0.postings[t].contains_key(id as nat),
                words@.map_values(|w: String| w@) == words_of(content@),
                ts == terms_of(content@),
                ts.len() == words@.len(),
                ts.len() <= u32::MAX,
                0 <= i <= words@.len(),
            decreases words@.len() - i,
        {
            let term = lowercase(words[i].as_str());
            proof {
                assert(words_of(content@)[i as int] == words@[i as int]@);
                assert(term@ == ts[i as int]);
                let ta = ts.take(i as int);
                lemma_occurrences_bound(ta, term@);
                if self@.postings.contains_key(term@) && self@.postings[term@].contains_key(id as nat) {
                    assert(occurrences(ta, term@) > 0);
                }
                lemma_with_terms_step(v0.postings, ts, i as int, id as nat);
            }
            self.register(term, id);
            i = i + 1;
        }
        proof {
            assert(ts.take(ts.len() as int) =~= ts);
        }
    }

    /// The index's contents as plain collections: the last id, each document
    /// id with its name, and each term with its (id, count) entries in
    /// ascending order of id.
    pub fn to_parts(&self) -> (r: (u32, Vec<(u32, String)>, Vec<(String, Vec<(u32, u32)>)>))
        requires
            self.wf(),
        ensures
            parts_valid(r.0, r.1@, r.2@),
            parts_view(r.0, r.1@, r.2@) == self@,
    {
        let mut docs: Vec<(u32, String)> = Vec::new();
        let mut k: usize = 0;
        while k < self.docs.len()
            invariant
                self.wf(),
                0 <= k <= self.docs@.len(),
                docs@.len() == k,
                forall|j: int| 0 <= j < k ==> #[trigger] docs@[j] == ((j + 1) as u32, self.docs@[j]),
            decreases self.docs@.len() - k,
        {
            docs.push(((k + 1) as u32, self.docs[k].clone()));
            k = k + 1;
        }
        let mut terms: Vec<(String, Vec<(u32, u32)>)> = Vec::new();
        let mut a: usize = 0;
        while a < self.terms.len()
            invariant
                self.wf(),
                0 <= a <= self.terms@.len(),
                terms@.len() == a,
                forall|j: int|
                    0 <= j < a ==> #[trigger] terms@[j].0 == self.terms@[j].term && terms@[j].1@
                        == self.terms@[j].freqs@,
            decreases self.terms@.len() - a,
        {
            terms.push((self.terms[a].term.clone(), copy_entries(&self.terms[a].freqs)));
            a = a + 1;
        }
        proof {
            let pv = postings_view(self.terms@);
            let tv = terms@.map_values(
                |e: (String, Vec<(u32, u32)>)| (e.0@, pairs_to_map(entries_view(e.1@))),
            );
            assert(tv =~= pv);
            assert forall|x: int, y: int|
                0 <= x < terms@.len() && 0 <= y < terms@.len() && #[trigger] terms@[x].0@
                    == #[trigger] terms@[y].0@ implies x == y by {
                assert(pv[x].0 == terms@[x].0@ && pv[y].0 == terms@[y].0@);
            }
            assert forall|x: int| 0 <= x < terms@.len() implies entries_ok(
                #[trigger] terms@[x].1@,
                self.count as nat,
            ) by {
                assert(terms@[x].0 == self.terms@[x].term);
                assert(self.terms@[x].wf(self.count as nat));
            }
            assert(docs@.map_values(|d: (u32, String)| d.1@) =~= self@.docs);
        }
        (self.count, docs, terms)
    }

    /// Puts an index together from parts as `to_parts` gives them; `None`
    /// where they do not fit together.
    pub fn from_parts(count: u32, docs: &Vec<(u32, String)>, terms: &Vec<(String, Vec<(u32, u32)>)>) -> (r:
        Option<Index>)
        ensures
            r is Some <==> parts_valid(count, docs@, terms@),
            r matches Some(i) ==> i.wf() && i@ == parts_view(count, docs@, terms@),
    {
        if docs.len() != count as usize {
            return None;
        }
        let mut names: Vec<String> = Vec::new();
        let mut k: usize = 0;
        while k < docs.len()
            invariant
                0 <= k <= docs@.len(),
                names@.len() == k,
                forall|j: int| 0 <= j < k ==> #[trigger] docs@[j].0 == j + 1 && names@[j] == docs@[j].1,
            decreases docs@.len() - k,
        {
            if docs[k].0 as usize != k + 1 {
                return None;
            }
            names.push(docs[k].1.clone());
            k = k + 1;
        }
        let mut postings: Vec<Posting> = Vec::new();
        let mut a: usize = 0;
        while a < terms.len()
            invariant
                0 <= a <= terms@.len(),
                postings@.len() == a,
                forall|j: int|
                    0 <= j < a ==> #[trigger] postings@[j].term == terms@[j].0 && postings@[j].freqs@
                        == terms@[j].1@,
                forall|x: int, y: int|
                    0 <= x < a && 0 <= y < a && #[trigger] terms@[x].0@ == #[trigger] terms@[y].0@ ==> x == y,
                forall|x: int| 0 <= x < a ==> entries_ok(#[trigger] terms@[x].1@, count as nat),
            decreases terms@.len() - a,
        {
            if !check_entries(&terms[a].1, count) {
                return None;
            }
            let mut b: usize = 0;
            while b < a
                invariant
                    0 <= b <= a < terms@.len(),
                    forall|x: int| 0 <= x < b ==> terms@[x].0@ != terms@[a as int].0@,
                decreases a - b,
            {
                if terms[b].0 == terms[a].0 {
                    return None;
                }
                b = b + 1;
            }
            postings.push(Posting { term: terms[a].0.clone(), freqs: copy_entries(&terms[a].1) });
            a = a + 1;
        }
        let index = Index { count, docs: names, terms: postings };
        proof {
            let tv = terms@.map_values(
                |e: (String, Vec<(u32, u32)>)| (e.0@, pairs_to_map(entries_view(e.1@))),
            );
            let pv = postings_view(index.terms@);
            assert(tv =~= pv);
            assert forall|x: int| 0 <= x < index.terms@.len() implies #[trigger] index.terms@[x].wf(
                count as nat,
            ) by {
                assert(postings@[x].term == terms@[x].0);
                assert(entries_ok(terms@[x].1@, count as nat));
            }
            assert forall|x: int, y: int|
                0 <= x < pv.len() && 0 <= y < pv.len() && pv[x].0 == pv[y].0 implies x == y by {
                assert(terms@[x].0@ == pv[x].0 && terms@[y].0@ == pv[y].0);
            }
            assert forall|j: int| 0 <= j < docs@.len() implies #[trigger] names@[j] == docs@[j].1 by {
                assert(docs@[j].0 == j + 1);
            }
            assert(index@.docs =~= docs@.map_values(|d: (u32, String)| d.1@));
        }
        Some(index)
    }

    /// Takes the index apart with `to_parts` and puts it back together with
    /// `from_parts`: the parts are always accepted, and the rebuilt index has
    /// the same counter, documents and postings.
    pub fn through_parts(&self) -> (r: Index)
        requires
            self.wf(),
        ensures
            r.wf(),
            r@ == self@,
    {
        let (count, docs, terms) = self.to_parts();
        match Index::from_parts(count, &docs, &terms) {
            Some(rebuilt) => rebuilt,
            None => {
                assert(false);
                Index::default()
            },
        }
    }
}

} // verus!
