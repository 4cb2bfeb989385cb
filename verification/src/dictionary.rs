//! The dictionary: entry store and inverted index kept mutually consistent,
//! with the batch builder and the query engine on top.
//!
//! The governing model is `matching_ids`: for any term, the ids of the
//! entries carrying it, in insertion order. The index is maintained so that
//! its answer for every term is exactly that sequence, and `search` returns
//! the corresponding definitions.

use vstd::prelude::*;

use crate::error::DictError;
use crate::index::InvertedIndex;
use crate::normalize::{normalize, normalize_spec};
use crate::store::{Entry, EntryStore};

verus! {

/// The ids of the entries whose term is exactly `t`, in insertion order
/// (which, ids being positions, is ascending id order).
pub open spec fn matching_ids(entries: Seq<Entry>, t: Seq<char>) -> Seq<usize>
    decreases entries.len(),
{
    if entries.len() == 0 {
        Seq::<usize>::empty()
    } else {
        let prefix = matching_ids(entries.drop_last(), t);
        if entries.last().term@ == t {
            prefix.push((entries.len() - 1) as usize)
        } else {
            prefix
        }
    }
}

/// The definitions of the entries whose term is exactly `t`, in insertion
/// order: what a successful search for `t` returns.
pub open spec fn matching_defs(entries: Seq<Entry>, t: Seq<char>) -> Seq<Seq<char>> {
    matching_ids(entries, t).map_values(|id: usize| entries[id as int].definition@)
}

/// Every matching id is the position of a live entry carrying the term.
pub proof fn lemma_matching_ids_sound(entries: Seq<Entry>, t: Seq<char>)
    requires
        entries.len() <= usize::MAX,
    ensures
        forall|k: int|
            0 <= k < matching_ids(entries, t).len() ==> #[trigger] matching_ids(entries, t)[k]
                < entries.len() && entries[matching_ids(entries, t)[k] as int].term@ == t,
    decreases entries.len(),
{
    if entries.len() > 0 {
        let d = entries.drop_last();
        lemma_matching_ids_sound(d, t);
        let ids = matching_ids(entries, t);
        let prefix = matching_ids(d, t);
        assert forall|k: int| 0 <= k < ids.len() implies #[trigger] ids[k] < entries.len()
            && entries[ids[k] as int].term@ == t by {
            if k < prefix.len() {
                assert(ids[k] == prefix[k]);
                assert(prefix[k] < d.len() && d[prefix[k] as int].term@ == t);
                assert(entries[prefix[k] as int] == d[prefix[k] as int]);
            } else {
                assert(ids[k] == (entries.len() - 1) as usize);
            }
        }
    }
}

/// Every live entry carrying the term is listed among the matching ids.
pub proof fn lemma_matching_ids_complete(entries: Seq<Entry>, t: Seq<char>, j: int)
    requires
        0 <= j < entries.len(),
        entries[j].term@ == t,
    ensures
        matching_ids(entries, t).contains(j as usize),
    decreases entries.len(),
{
    let ids = matching_ids(entries, t);
    if j == entries.len() - 1 {
        assert(ids[ids.len() - 1] == j as usize);
    } else {
        let d = entries.drop_last();
        assert(d[j] == entries[j]);
        lemma_matching_ids_complete(d, t, j);
        let k = choose|k: int|
            0 <= k < matching_ids(d, t).len() && matching_ids(d, t)[k] == j as usize;
        assert(ids[k] == j as usize);
    }
}

/// Appending one entry extends the matches of its own term by its position
/// and leaves the matches of every other term untouched.
pub proof fn lemma_matching_push(entries: Seq<Entry>, e: Entry, t: Seq<char>)
    ensures
        e.term@ == t ==> matching_ids(entries.push(e), t) == matching_ids(entries, t).push(
            entries.len() as usize,
        ),
        e.term@ != t ==> matching_ids(entries.push(e), t) == matching_ids(entries, t),
{
    assert(entries.push(e).drop_last() =~= entries);
    assert(entries.push(e).last() == e);
}

/// The record of one input that a batch build skipped.
pub struct SkipRecord {
    /// The position of the skipped input in the batch.
    pub position: usize,
    /// Why it was skipped.
    pub reason: DictError,
}

/// What a batch build reports back: the inputs it skipped, with reasons.
/// An empty list means every input was indexed.
pub struct BuildReport {
    /// The skipped inputs, in batch order.
    pub skipped: Vec<SkipRecord>,
}

/// The positions of the inputs a build skips: exactly those whose term
/// normalizes to the empty string.
pub open spec fn skipped_model(inputs: Seq<(Seq<char>, Seq<char>)>) -> Seq<usize>
    decreases inputs.len(),
{
    if inputs.len() == 0 {
        Seq::<usize>::empty()
    } else {
        let prefix = skipped_model(inputs.drop_last());
        if normalize_spec(inputs.last().0).len() == 0 {
            prefix.push((inputs.len() - 1) as usize)
        } else {
            prefix
        }
    }
}

/// The (term, definition) pairs a build keeps, in batch order: each input
/// whose term survives normalization, with that term normalized.
pub open spec fn built_model(inputs: Seq<(Seq<char>, Seq<char>)>) -> Seq<(Seq<char>, Seq<char>)>
    decreases inputs.len(),
{
    if inputs.len() == 0 {
        Seq::<(Seq<char>, Seq<char>)>::empty()
    } else {
        let prefix = built_model(inputs.drop_last());
        let pair = inputs.last();
        if normalize_spec(pair.0).len() > 0 {
            prefix.push((normalize_spec(pair.0), pair.1))
        } else {
            prefix
        }
    }
}

/// The entries realize the model pairs, position by position.
pub open spec fn entries_match(entries: Seq<Entry>, model: Seq<(Seq<char>, Seq<char>)>) -> bool {
    &&& entries.len() == model.len()
    &&& forall|k: int|
        0 <= k < entries.len() ==> (#[trigger] entries[k]).term@ == model[k].0
            && entries[k].definition@ == model[k].1
}

/// The full-text dictionary: store and index, mutually consistent.
pub struct Dictionary {
    store: EntryStore,
    index: InvertedIndex,
}

impl View for Dictionary {
    type V = Seq<Entry>;

    closed spec fn view(&self) -> Seq<Entry> {
        self.store@
    }
}

impl Dictionary {
    /// The consistency invariant: store and index are well formed, and for
    /// every term the index answers exactly the positions of the live
    /// entries carrying it — no stale id, no missing entry.
    pub closed spec fn wf(&self) -> bool {
        &&& self.store.wf()
        &&& self.index.wf()
        &&& forall|t: Seq<char>| #[trigger] self.index.ids_for(t) == matching_ids(self.store@, t)
    }

    /// Create an empty dictionary.
    pub fn new() -> (d: Dictionary)
        ensures
            d.wf(),
            d@ == Seq::<Entry>::empty(),
    {
        let d = Dictionary { store: EntryStore::new(), index: InvertedIndex::new() };
        proof {
            assert forall|t: Seq<char>| #[trigger] d.index.ids_for(t) == matching_ids(
                d.store@,
                t,
            ) by {
                assert(d.index.ids_for(t) == Seq::<usize>::empty());
            }
        }
        d
    }

    /// The number of live entries.
    pub fn len(&self) -> (n: usize)
        ensures
            n == self@.len(),
    {
        self.store.len()
    }

    /// Insert one (raw term, definition) pair: the term is normalized, the
    /// entry is appended to the store under a fresh id, and the id is filed
    /// in the index under the normalized term. A term that normalizes to the
    /// empty string is rejected with `InvalidInput` and nothing changes.
    pub fn insert(&mut self, raw_term: &str, definition: String) -> (r: Result<usize, DictError>)
        requires
            old(self).wf(),
        ensures
            final(self).wf(),
            normalize_spec(raw_term@).len() == 0 ==> r == Err::<usize, DictError>(
                DictError::InvalidInput,
            ) && final(self)@ == old(self)@,
            normalize_spec(raw_term@).len() > 0 ==> {
                &&& r == Ok::<usize, DictError>(old(self)@.len() as usize)
                &&& final(self)@.len() == old(self)@.len() + 1
                &&& final(self)@.drop_last() == old(self)@
                &&& final(self)@.last().id == old(self)@.len()
                &&& final(self)@.last().term@ == normalize_spec(raw_term@)
                &&& final(self)@.last().definition@ == definition@
            },
    {
        let term = normalize(raw_term);
        if term.as_str().is_empty() {
            return Err(DictError::InvalidInput);
        }
        let ghost entries0 = self.store@;
        proof {
            self.store.lemma_len_bound();
        }
        let res = self.store.insert(term.clone(), definition);
        let id = match res {
            Ok(id) => id,
            Err(e) => {
                proof {
                    assert(false);
                }
                return Err(e);
            },
        };
        proof {
            assert(self.store@ =~= entries0.push(self.store@.last()));
            lemma_matching_ids_sound(entries0, term@);
            if matching_ids(entries0, term@).contains(id) {
                let k = choose|k: int|
                    0 <= k < matching_ids(entries0, term@).len() && matching_ids(entries0, term@)[k]
                        == id;
                assert(matching_ids(entries0, term@)[k] < entries0.len());
            }
            assert(!matching_ids(entries0, term@).contains(id));
            assert(old(self).index.ids_for(term@) == matching_ids(entries0, term@));
        }
        self.index.add(&term, id);
        proof {
            let e = self.store@.last();
            assert(e.term@ == term@);
            assert forall|t: Seq<char>| #[trigger] self.index.ids_for(t) == matching_ids(
                self.store@,
                t,
            ) by {
                lemma_matching_push(entries0, e, t);
                if t == term@ {
                    assert(self.index.ids_for(t) == matching_ids(entries0, t).push(id));
                } else {
                    assert(self.index.ids_for(t) == old(self).index.ids_for(t));
                }
            }
        }
        Ok(id)
    }

    /// Search for a raw term: it is normalized exactly as at build time, and
    /// the definitions of the entries carrying it come back in insertion
    /// order. No match is a normal outcome — the result is then the empty
    /// vector. Only a query that normalizes to the empty string is rejected,
    /// with `QueryRejected`.
    pub fn search(&self, raw: &str) -> (r: Result<Vec<String>, DictError>)
        requires
            self.wf(),
        ensures
            normalize_spec(raw@).len() == 0 ==> r == Err::<Vec<String>, DictError>(
                DictError::QueryRejected,
            ),
            normalize_spec(raw@).len() > 0 ==> (r matches Ok(defs) && defs.deep_view()
                == matching_defs(self@, normalize_spec(raw@))),
    {
        let term = normalize(raw);
        if term.as_str().is_empty() {
            return Err(DictError::QueryRejected);
        }
        let ids = self.index.lookup(&term);
        proof {
            assert(ids@ == matching_ids(self@, term@));
            self.store.lemma_len_bound();
            lemma_matching_ids_sound(self@, term@);
        }
        let n = ids.len();
        let mut out: Vec<String> = Vec::new();
        let mut k: usize = 0;
        while k < n
            invariant
                self.wf(),
                ids@ == matching_ids(self@, term@),
                forall|k2: int|
                    0 <= k2 < ids@.len() ==> #[trigger] ids@[k2] < self@.len()
                        && self@[ids@[k2] as int].term@ == term@,
                n == ids@.len(),
                k <= n,
                out.deep_view() == matching_defs(self@, term@).take(k as int),
            decreases n - k,
        {
            let id = ids[k];
            let entry = self.store.get(id);
            match entry {
                Some(e) => {
                    out.push(e.definition.clone());
                },
                None => {
                    proof {
                        assert(false);
                    }
                },
            }
            proof {
                let defs = matching_defs(self@, term@);
                assert(defs[k as int] == self@[ids@[k as int] as int].definition@);
                assert(out.deep_view() =~= defs.take(k as int).push(defs[k as int]));
                assert(defs.take(k as int).push(defs[k as int]) =~= defs.take(k as int + 1));
            }
            k = k + 1;
        }
        proof {
            assert(matching_defs(self@, term@).take(n as int) =~= matching_defs(self@, term@));
        }
        Ok(out)
    }

    /// Build a dictionary from a batch of (raw term, definition) inputs.
    /// Inputs whose term normalizes to the empty string are skipped and
    /// recorded, in batch order, with `InvalidInput` as the reason; every
    /// other input is indexed. The finished dictionary is returned as a
    /// whole: no caller ever observes a partially built state.
    pub fn build(inputs: &Vec<(String, String)>) -> (r: (Dictionary, BuildReport))
        ensures
            r.0.wf(),
            entries_match(r.0@, built_model(inputs.deep_view())),
            r.1.skipped@.map_values(|s: SkipRecord| s.position) == skipped_model(
                inputs.deep_view(),
            ),
            forall|k: int|
                0 <= k < r.1.skipped@.len() ==> (#[trigger] r.1.skipped@[k]).reason
                    is InvalidInput,
    {
        let ghost model = inputs.deep_view();
        let mut d = Dictionary::new();
        let mut skipped: Vec<SkipRecord> = Vec::new();
        let n = inputs.len();
        let mut i: usize = 0;
        proof {
            assert(model.take(0) =~= Seq::<(Seq<char>, Seq<char>)>::empty());
            assert(skipped@.map_values(|s: SkipRecord| s.position) =~= Seq::<usize>::empty());
        }
        while i < n
            invariant
                d.wf(),
                model == inputs.deep_view(),
                n == inputs@.len(),
                model.len() == n,
                i <= n,
                entries_match(d@, built_model(model.take(i as int))),
                skipped@.map_values(|s: SkipRecord| s.position) == skipped_model(
                    model.take(i as int),
                ),
                forall|k: int|
                    0 <= k < skipped@.len() ==> (#[trigger] skipped@[k]).reason is InvalidInput,
            decreases n - i,
        {
            let pair = &inputs[i];
            proof {
                assert(model[i as int] == (inputs@[i as int].0@, inputs@[i as int].1@));
            }
            let ghost entries0 = d@;
            let res = d.insert(pair.0.as_str(), pair.1.clone());
            proof {
                assert(model.take(i as int + 1).drop_last() =~= model.take(i as int));
                assert(model.take(i as int + 1).last() == model[i as int]);
            }
            match res {
                Ok(_) => {
                    proof {
                        let bm = built_model(model.take(i as int + 1));
                        let bm0 = built_model(model.take(i as int));
                        assert(bm == bm0.push((normalize_spec(model[i as int].0), model[
                            i as int].1)));
                        assert(d@ =~= entries0.push(d@.last()));
                        assert forall|k: int| 0 <= k < d@.len() implies (#[trigger] d@[k]).term@
                            == bm[k].0 && d@[k].definition@ == bm[k].1 by {
                            if k < entries0.len() {
                                assert(d@[k] == entries0[k]);
                                assert(bm[k] == bm0[k]);
                            }
                        }
                        assert(skipped_model(model.take(i as int + 1)) == skipped_model(
                            model.take(i as int),
                        ));
                    }
                },
                Err(e) => {
                    skipped.push(SkipRecord { position: i, reason: e });
                    proof {
                        let sm = skipped_model(model.take(i as int + 1));
                        let sm0 = skipped_model(model.take(i as int));
                        assert(sm == sm0.push(i as usize));
                        assert(skipped@.map_values(|s: SkipRecord| s.position) =~= sm0.push(
                            i as usize,
                        ));
                        assert(built_model(model.take(i as int + 1)) == built_model(
                            model.take(i as int),
                        ));
                    }
                },
            }
            i = i + 1;
        }
        proof {
            assert(model.take(n as int) =~= model);
        }
        (d, BuildReport { skipped })
    }

    /// Refresh the corpus: build a shadow dictionary from the batch and swap
    /// it in whole, so the previous contents are replaced atomically and no
    /// reader can observe a mixture of old and new entries.
    pub fn rebuild(&mut self, inputs: &Vec<(String, String)>) -> (r: BuildReport)
        ensures
            final(self).wf(),
            entries_match(final(self)@, built_model(inputs.deep_view())),
            r.skipped@.map_values(|s: SkipRecord| s.position) == skipped_model(
                inputs.deep_view(),
            ),
            forall|k: int|
                0 <= k < r.skipped@.len() ==> (#[trigger] r.skipped@[k]).reason is InvalidInput,
    {
        let (shadow, report) = Dictionary::build(inputs);
        *self = shadow;
        report
    }
}

/// Law: every input a build keeps is found again: a search for its
/// normalized term includes its definition among the results.
pub proof fn lemma_build_finds_entry(
    inputs: Seq<(Seq<char>, Seq<char>)>,
    entries: Seq<Entry>,
    i: int,
)
    requires
        entries_match(entries, built_model(inputs)),
        entries.len() <= usize::MAX,
        0 <= i < inputs.len(),
        normalize_spec(inputs[i].0).len() > 0,
    ensures
        matching_defs(entries, normalize_spec(inputs[i].0)).contains(inputs[i].1),
{
    let t = normalize_spec(inputs[i].0);
    let j = lemma_built_model_keeps(inputs, i);
    lemma_matching_ids_complete(entries, t, j);
    let ids = matching_ids(entries, t);
    let k = choose|k: int| 0 <= k < ids.len() && ids[k] == j as usize;
    let defs = matching_defs(entries, t);
    assert(defs[k] == entries[j].definition@);
    assert(defs.contains(inputs[i].1));
}

/// Every input with a non-empty normalized term appears in the built model,
/// normalized; the returned value is its position there.
proof fn lemma_built_model_keeps(inputs: Seq<(Seq<char>, Seq<char>)>, i: int) -> (j: int)
    requires
        0 <= i < inputs.len(),
        normalize_spec(inputs[i].0).len() > 0,
    ensures
        0 <= j < built_model(inputs).len(),
        built_model(inputs)[j].0 == normalize_spec(inputs[i].0),
        built_model(inputs)[j].1 == inputs[i].1,
    decreases inputs.len(),
{
    let bm = built_model(inputs);
    if i == inputs.len() - 1 {
        let j = bm.len() - 1;
        assert(inputs.last() == inputs[i]);
        j
    } else {
        let d = inputs.drop_last();
        assert(d[i] == inputs[i]);
        let j = lemma_built_model_keeps(d, i);
        assert(built_model(d)[j] == bm[j]);
        j
    }
}

/// Law: a search result is a pure function of the dictionary state and the
/// query: any two reads of the same state with the same query agree, however
/// they are interleaved with each other.
pub proof fn lemma_reads_agree(
    entries: Seq<Entry>,
    q: Seq<char>,
    r1: Seq<Seq<char>>,
    r2: Seq<Seq<char>>,
)
    requires
        r1 == matching_defs(entries, q),
        r2 == matching_defs(entries, q),
    ensures
        r1 == r2,
{
}

/// Law: one insert is visible atomically. Appending the entry `e` appends
/// exactly `e`'s definition to the matches for `e`'s own term — at the end,
/// preserving insertion order — and leaves the matches for every other term
/// exactly as they were: a reader sees all of the insert's effect or none.
pub proof fn lemma_insert_visibility(entries: Seq<Entry>, e: Entry, q: Seq<char>)
    requires
        entries.len() <= usize::MAX,
    ensures
        e.term@ == q ==> matching_defs(entries.push(e), q) == matching_defs(entries, q).push(
            e.definition@,
        ),
        e.term@ != q ==> matching_defs(entries.push(e), q) == matching_defs(entries, q),
{
    lemma_matching_push(entries, e, q);
    lemma_matching_ids_sound(entries, q);
    let pushed = entries.push(e);
    let ids = matching_ids(entries, q);
    let ids2 = matching_ids(pushed, q);
    let defs = matching_defs(entries, q);
    let defs2 = matching_defs(pushed, q);
    if e.term@ == q {
        assert(ids2 == ids.push(entries.len() as usize));
        assert forall|x: int|
            0 <= x < defs2.len() implies defs2[x] == defs.push(e.definition@)[x] by {
            assert(defs2[x] == pushed[ids2[x] as int].definition@);
            if x < ids.len() {
                assert(ids2[x] == ids[x]);
                assert(ids[x] < entries.len());
                assert(pushed[ids[x] as int] == entries[ids[x] as int]);
                assert(defs[x] == entries[ids[x] as int].definition@);
            } else {
                assert(ids2[x] == entries.len() as usize);
                assert(pushed[entries.len() as int] == e);
            }
        }
        assert(defs2 =~= defs.push(e.definition@));
    } else {
        assert(ids2 == ids);
        assert forall|x: int| 0 <= x < defs2.len() implies defs2[x] == defs[x] by {
            assert(defs2[x] == pushed[ids2[x] as int].definition@);
            assert(ids[x] < entries.len());
            assert(pushed[ids[x] as int] == entries[ids[x] as int]);
            assert(defs[x] == entries[ids[x] as int].definition@);
        }
        assert(defs2 =~= defs);
    }
}

} // verus!
