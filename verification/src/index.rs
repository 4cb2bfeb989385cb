//! The inverted index: a mapping from each normalized term to the ids of the
//! entries that carry it, in insertion order.
//!
//! Lookup is exact-term only: no prefix, substring or fuzzy match, and an
//! absent term yields an empty id sequence rather than an error.

use vstd::prelude::*;

verus! {

/// One key of the index: a term and the ids filed under it, oldest first.
struct Bucket {
    term: String,
    ids: Vec<usize>,
}

/// The ids filed under term `t`, by a front-to-back scan of the buckets.
spec fn seq_ids_for(buckets: Seq<Bucket>, t: Seq<char>) -> Seq<usize>
    decreases buckets.len(),
{
    if buckets.len() == 0 {
        Seq::<usize>::empty()
    } else if buckets.first().term@ == t {
        buckets.first().ids@
    } else {
        seq_ids_for(buckets.drop_first(), t)
    }
}

/// Whether some bucket carries term `t`.
spec fn has_key(buckets: Seq<Bucket>, t: Seq<char>) -> bool {
    exists|j: int| 0 <= j < buckets.len() && buckets[j].term@ == t
}

/// Well-formed buckets: keys pairwise distinct, ids duplicate-free per key.
spec fn buckets_wf(bs: Seq<Bucket>) -> bool {
    &&& forall|j1: int, j2: int|
        0 <= j1 < j2 < bs.len() ==> #[trigger] bs[j1].term@ != #[trigger] bs[j2].term@
    &&& forall|j: int| 0 <= j < bs.len() ==> (#[trigger] bs[j].ids@).no_duplicates()
}

/// Exact-term inverted index from normalized terms to entry ids.
pub struct InvertedIndex {
    buckets: Vec<Bucket>,
}

impl InvertedIndex {
    /// The ids filed under term `t`, in the order they were added; empty when
    /// the term is absent.
    pub closed spec fn ids_for(&self, t: Seq<char>) -> Seq<usize> {
        seq_ids_for(self.buckets@, t)
    }

    /// A well-formed index: bucket keys are pairwise distinct and no bucket
    /// files the same id twice.
    pub closed spec fn wf(&self) -> bool {
        buckets_wf(self.buckets@)
    }

    /// Create an empty index.
    pub fn new() -> (r: InvertedIndex)
        ensures
            r.wf(),
            forall|t: Seq<char>| r.ids_for(t) == Seq::<usize>::empty(),
    {
        InvertedIndex { buckets: Vec::new() }
    }

    /// File `id` under `term`, creating the key if it is absent. Idempotent:
    /// re-adding an id already filed under the term changes nothing. Every
    /// other term's ids are untouched.
    pub fn add(&mut self, term: &String, id: usize)
        requires
            old(self).wf(),
        ensures
            final(self).wf(),
            old(self).ids_for(term@).contains(id) ==> final(self).ids_for(term@) == old(
                self,
            ).ids_for(term@),
            !old(self).ids_for(term@).contains(id) ==> final(self).ids_for(term@) == old(
                self,
            ).ids_for(term@).push(id),
            forall|t: Seq<char>|
                t != term@ ==> #[trigger] final(self).ids_for(t) == old(self).ids_for(t),
    {
        let ghost bs0 = self.buckets@;
        proof {
            assert(buckets_wf(bs0));
        }
        let n = self.buckets.len();
        let mut j: usize = 0;
        while j < n
            invariant
                self.buckets@ == bs0,
                bs0 == old(self).buckets@,
                buckets_wf(bs0),
                n == bs0.len(),
                j <= n,
                forall|k: int| 0 <= k < j ==> #[trigger] bs0[k].term@ != term@,
            decreases n - j,
        {
            if self.buckets[j].term == *term {
                let present = contains_id(&self.buckets[j].ids, id);
                proof {
                    lemma_ids_for_at_key(bs0, j as int);
                    assert(old(self).ids_for(term@) == bs0[j as int].ids@);
                }
                if !present {
                    self.buckets[j].ids.push(id);
                    proof {
                        let bs1 = self.buckets@;
                        let b2 = bs1[j as int];
                        assert(bs1 == bs0.update(j as int, b2));
                        assert(b2.ids@ == bs0[j as int].ids@.push(id));
                        assert(b2.term@ == bs0[j as int].term@);
                        lemma_push_no_duplicates(bs0[j as int].ids@, id);
                        lemma_ids_for_update(bs0, j as int, b2);
                        assert(self.ids_for(term@) == b2.ids@);
                        assert forall|j1: int, j2: int|
                            0 <= j1 < j2 < bs1.len() implies #[trigger] bs1[j1].term@
                            != #[trigger] bs1[j2].term@ by {
                            assert(bs1[j1] == bs0.update(j as int, b2)[j1]);
                            assert(bs1[j2] == bs0.update(j as int, b2)[j2]);
                            assert(bs0[j1].term@ != bs0[j2].term@);
                        }
                        assert forall|k: int|
                            0 <= k < bs1.len() implies (#[trigger] bs1[k].ids@).no_duplicates() by {
                            assert(bs1[k] == bs0.update(j as int, b2)[k]);
                            if k != j as int {
                                assert(bs0[k].ids@.no_duplicates());
                            }
                        }
                        assert(buckets_wf(bs1));
                        assert forall|t: Seq<char>|
                            t != term@ implies #[trigger] self.ids_for(t) == old(self).ids_for(
                            t,
                        ) by {
                            assert(seq_ids_for(bs0.update(j as int, b2), t) == seq_ids_for(
                                bs0,
                                t,
                            ));
                        }
                    }
                }
                return ;
            }
            j = j + 1;
        }
        let b = Bucket { term: term.clone(), ids: vec_of_one(id) };
        self.buckets.push(b);
        proof {
            let bs1 = self.buckets@;
            let bl = bs1.last();
            assert(bs1 == bs0.push(bl));
            assert(bl.term@ == term@);
            assert(bl.ids@ == Seq::<usize>::empty().push(id));
            lemma_ids_for_absent(bs0, term@);
            assert(!has_key(bs0, term@)) by {
                if has_key(bs0, term@) {
                    let k = choose|k: int| 0 <= k < bs0.len() && bs0[k].term@ == term@;
                    assert(bs0[k].term@ != term@);
                }
            }
            lemma_ids_for_push(bs0, bl);
            assert(self.ids_for(term@) == bl.ids@);
            assert(old(self).ids_for(term@) == Seq::<usize>::empty());
            assert(self.ids_for(term@) == old(self).ids_for(term@).push(id));
            assert forall|j1: int, j2: int|
                0 <= j1 < j2 < bs1.len() implies #[trigger] bs1[j1].term@ != #[trigger] bs1[j2].term@ by {
                assert(bs1[j1] == bs0.push(bl)[j1]);
                assert(bs1[j2] == bs0.push(bl)[j2]);
                if j2 == bs1.len() - 1 {
                    assert(bs0[j1].term@ != term@);
                } else {
                    assert(bs0[j1].term@ != bs0[j2].term@);
                }
            }
            assert forall|k: int|
                0 <= k < bs1.len() implies (#[trigger] bs1[k].ids@).no_duplicates() by {
                assert(bs1[k] == bs0.push(bl)[k]);
                if k < bs1.len() - 1 {
                    assert(bs0[k].ids@.no_duplicates());
                }
            }
            assert(buckets_wf(bs1));
            assert forall|t: Seq<char>|
                t != term@ implies #[trigger] self.ids_for(t) == old(self).ids_for(t) by {
                if has_key(bs0, t) {
                    assert(seq_ids_for(bs0.push(bl), t) == seq_ids_for(bs0, t));
                } else {
                    assert(seq_ids_for(bs0.push(bl), t) == seq_ids_for(bs0, t));
                }
            }
        }
    }

    /// Withdraw `id` from under `term`, keeping the order of the remaining
    /// ids; a term that never filed the id (or is absent) is unchanged, and
    /// so is every other term.
    pub fn remove(&mut self, term: &String, id: usize)
        requires
            old(self).wf(),
        ensures
            final(self).wf(),
            final(self).ids_for(term@) == old(self).ids_for(term@).filter(
                |x: usize| x != id,
            ),
            forall|t: Seq<char>|
                t != term@ ==> #[trigger] final(self).ids_for(t) == old(self).ids_for(t),
    {
        let ghost bs0 = self.buckets@;
        proof {
            assert(buckets_wf(bs0));
        }
        let n = self.buckets.len();
        let mut j: usize = 0;
        while j < n
            invariant
                self.buckets@ == bs0,
                bs0 == old(self).buckets@,
                buckets_wf(bs0),
                n == bs0.len(),
                j <= n,
                forall|k: int| 0 <= k < j ==> #[trigger] bs0[k].term@ != term@,
            decreases n - j,
        {
            if self.buckets[j].term == *term {
                proof {
                    lemma_ids_for_at_key(bs0, j as int);
                    assert(old(self).ids_for(term@) == bs0[j as int].ids@);
                }
                let kept = ids_without(&self.buckets[j].ids, id);
                self.buckets[j].ids = kept;
                proof {
                    let bs1 = self.buckets@;
                    let b2 = bs1[j as int];
                    assert(bs1 == bs0.update(j as int, b2));
                    assert(b2.ids@ == bs0[j as int].ids@.filter(|x: usize| x != id));
                    assert(b2.term@ == bs0[j as int].term@);
                    lemma_ids_for_update(bs0, j as int, b2);
                    lemma_filter_no_duplicates(bs0[j as int].ids@, |x: usize| x != id);
                    assert(self.ids_for(term@) == b2.ids@);
                    assert forall|j1: int, j2: int|
                        0 <= j1 < j2 < bs1.len() implies #[trigger] bs1[j1].term@
                        != #[trigger] bs1[j2].term@ by {
                        assert(bs1[j1] == bs0.update(j as int, b2)[j1]);
                        assert(bs1[j2] == bs0.update(j as int, b2)[j2]);
                        assert(bs0[j1].term@ != bs0[j2].term@);
                    }
                    assert forall|k: int|
                        0 <= k < bs1.len() implies (#[trigger] bs1[k].ids@).no_duplicates() by {
                        assert(bs1[k] == bs0.update(j as int, b2)[k]);
                        if k != j as int {
                            assert(bs0[k].ids@.no_duplicates());
                        }
                    }
                    assert(buckets_wf(bs1));
                    assert forall|t: Seq<char>|
                        t != term@ implies #[trigger] self.ids_for(t) == old(self).ids_for(t) by {
                        assert(seq_ids_for(bs0.update(j as int, b2), t) == seq_ids_for(bs0, t));
                    }
                }
                return ;
            }
            j = j + 1;
        }
        proof {
            lemma_ids_for_absent(bs0, term@);
            assert(old(self).ids_for(term@) == Seq::<usize>::empty());
            assert(Seq::<usize>::empty().filter(|x: usize| x != id) =~= Seq::<usize>::empty());
        }
    }

    /// The ids filed under `term`, oldest first; empty when the term is
    /// absent. Exact match only.
    pub fn lookup(&self, term: &String) -> (r: Vec<usize>)
        ensures
            r@ == self.ids_for(term@),
    {
        let n = self.buckets.len();
        let mut j: usize = 0;
        while j < n
            invariant
                n == self.buckets@.len(),
                j <= n,
                forall|k: int| 0 <= k < j ==> #[trigger] self.buckets@[k].term@ != term@,
            decreases n - j,
        {
            if self.buckets[j].term == *term {
                let r = copy_ids(&self.buckets[j].ids);
                proof {
                    lemma_ids_for_at_key(self.buckets@, j as int);
                }
                return r;
            }
            j = j + 1;
        }
        proof {
            lemma_ids_for_absent(self.buckets@, term@);
        }
        Vec::new()
    }
}

/// Whether a vector of ids contains the given id.
fn contains_id(v: &Vec<usize>, x: usize) -> (r: bool)
    ensures
        r == v@.contains(x),
{
    let n = v.len();
    let mut j: usize = 0;
    while j < n
        invariant
            n == v@.len(),
            j <= n,
            forall|k: int| 0 <= k < j ==> v@[k] != x,
        decreases n - j,
    {
        if v[j] == x {
            return true;
        }
        j = j + 1;
    }
    false
}

/// A fresh one-element vector.
fn vec_of_one(x: usize) -> (r: Vec<usize>)
    ensures
        r@ == Seq::<usize>::empty().push(x),
{
    let mut r: Vec<usize> = Vec::new();
    r.push(x);
    r
}

/// A copy of a vector of ids.
fn copy_ids(v: &Vec<usize>) -> (r: Vec<usize>)
    ensures
        r@ == v@,
{
    let n = v.len();
    let mut r: Vec<usize> = Vec::new();
    let mut j: usize = 0;
    while j < n
        invariant
            n == v@.len(),
            j <= n,
            r@ == v@.take(j as int),
        decreases n - j,
    {
        r.push(v[j]);
        proof {
            assert(v@.take(j as int).push(v@[j as int]) =~= v@.take(j as int + 1));
        }
        j = j + 1;
    }
    proof {
        assert(v@.take(n as int) =~= v@);
    }
    r
}

/// The ids of `v` with every occurrence of `x` dropped, order kept.
fn ids_without(v: &Vec<usize>, x: usize) -> (r: Vec<usize>)
    ensures
        r@ == v@.filter(|y: usize| y != x),
{
    let n = v.len();
    let mut r: Vec<usize> = Vec::new();
    let mut j: usize = 0;
    while j < n
        invariant
            n == v@.len(),
            j <= n,
            r@ == v@.take(j as int).filter(|y: usize| y != x),
        decreases n - j,
    {
        proof {
            assert(v@.take(j as int + 1) =~= v@.take(j as int).push(v@[j as int]));
            v@.take(j as int).lemma_filter_push(v@[j as int], |y: usize| y != x);
        }
        if v[j] != x {
            r.push(v[j]);
        }
        j = j + 1;
    }
    proof {
        assert(v@.take(n as int) =~= v@);
    }
    r
}

/// Every element of a filtered sequence is an element of the original.
proof fn lemma_filter_subset(s: Seq<usize>, pred: spec_fn(usize) -> bool, x: usize)
    requires
        s.filter(pred).contains(x),
    ensures
        s.contains(x),
    decreases s.len(),
{
    reveal(Seq::filter);
    if s.len() > 0 {
        let d = s.drop_last();
        if pred(s.last()) && x == s.last() {
            assert(s[s.len() - 1] == x);
        } else {
            lemma_filter_subset(d, pred, x);
            let k = choose|k: int| 0 <= k < d.len() && d[k] == x;
            assert(s[k] == x);
        }
    }
}

/// Pushing a fresh element keeps a sequence duplicate-free.
proof fn lemma_push_no_duplicates(s: Seq<usize>, x: usize)
    requires
        s.no_duplicates(),
        !s.contains(x),
    ensures
        s.push(x).no_duplicates(),
{
    let p = s.push(x);
    assert forall|i: int, j: int|
        0 <= i < p.len() && 0 <= j < p.len() && i != j implies p[i] != p[j] by {
        if i < s.len() && j < s.len() {
            assert(p[i] == s[i] && p[j] == s[j]);
        } else if i < s.len() {
            assert(p[i] == s[i] && p[j] == x);
            if s[i] == x {
                assert(s.contains(x));
            }
        } else {
            assert(p[i] == x && p[j] == s[j]);
            if s[j] == x {
                assert(s.contains(x));
            }
        }
    }
}

/// Filtering keeps a duplicate-free sequence duplicate-free.
proof fn lemma_filter_no_duplicates(s: Seq<usize>, pred: spec_fn(usize) -> bool)
    requires
        s.no_duplicates(),
    ensures
        s.filter(pred).no_duplicates(),
    decreases s.len(),
{
    reveal(Seq::filter);
    if s.len() > 0 {
        let d = s.drop_last();
        assert(d.no_duplicates());
        lemma_filter_no_duplicates(d, pred);
        if pred(s.last()) {
            if d.filter(pred).contains(s.last()) {
                lemma_filter_subset(d, pred, s.last());
                let k = choose|k: int| 0 <= k < d.len() && d[k] == s.last();
                assert(s[k] == s[s.len() - 1]);
            }
            lemma_push_no_duplicates(d.filter(pred), s.last());
        }
    }
}

/// When no bucket carries `t`, the scan yields the empty id sequence.
proof fn lemma_ids_for_absent(buckets: Seq<Bucket>, t: Seq<char>)
    requires
        forall|k: int| 0 <= k < buckets.len() ==> #[trigger] buckets[k].term@ != t,
    ensures
        seq_ids_for(buckets, t) == Seq::<usize>::empty(),
    decreases buckets.len(),
{
    if buckets.len() > 0 {
        assert(forall|k: int|
            0 <= k < buckets.drop_first().len() ==> #[trigger] buckets.drop_first()[k].term@
                == buckets[k + 1].term@);
        lemma_ids_for_absent(buckets.drop_first(), t);
    }
}

/// When the first `j` buckets miss the key and bucket `j` carries it, the
/// scan yields bucket `j`'s ids.
proof fn lemma_ids_for_at_key(buckets: Seq<Bucket>, j: int)
    requires
        0 <= j < buckets.len(),
        forall|k: int| 0 <= k < j ==> #[trigger] buckets[k].term@ != buckets[j].term@,
    ensures
        seq_ids_for(buckets, buckets[j].term@) == buckets[j].ids@,
    decreases j,
{
    if j > 0 {
        assert(forall|k: int|
            0 <= k < buckets.drop_first().len() ==> #[trigger] buckets.drop_first()[k].term@
                == buckets[k + 1].term@);
        lemma_ids_for_at_key(buckets.drop_first(), j - 1);
    }
}

/// Replacing bucket `j` by one with the same key changes the scan only at
/// that key, and only when no earlier bucket shadows it.
proof fn lemma_ids_for_update(buckets: Seq<Bucket>, j: int, b2: Bucket)
    requires
        0 <= j < buckets.len(),
        b2.term@ == buckets[j].term@,
        forall|k: int| 0 <= k < j ==> #[trigger] buckets[k].term@ != buckets[j].term@,
    ensures
        forall|t: Seq<char>|
            t != buckets[j].term@ ==> #[trigger] seq_ids_for(buckets.update(j, b2), t)
                == seq_ids_for(buckets, t),
        seq_ids_for(buckets.update(j, b2), buckets[j].term@) == b2.ids@,
    decreases j,
{
    let up = buckets.update(j, b2);
    if j == 0 {
        assert(up.first() == b2);
        assert forall|t: Seq<char>| t != buckets[0].term@ implies #[trigger] seq_ids_for(up, t)
            == seq_ids_for(buckets, t) by {
            assert(up.drop_first() =~= buckets.drop_first());
        }
    } else {
        assert(up.first() == buckets.first());
        assert(up.drop_first() =~= buckets.drop_first().update(j - 1, b2));
        assert(forall|k: int|
            0 <= k < buckets.drop_first().len() ==> #[trigger] buckets.drop_first()[k].term@
                == buckets[k + 1].term@);
        lemma_ids_for_update(buckets.drop_first(), j - 1, b2);
        assert forall|t: Seq<char>| t != buckets[j].term@ implies #[trigger] seq_ids_for(up, t)
            == seq_ids_for(buckets, t) by {
            if t == buckets.first().term@ {
            } else {
                assert(seq_ids_for(up, t) == seq_ids_for(up.drop_first(), t));
            }
        }
        assert(buckets.first().term@ != buckets[j].term@);
    }
}

/// Appending a bucket changes the scan only at keys no earlier bucket holds.
proof fn lemma_ids_for_push(buckets: Seq<Bucket>, b: Bucket)
    ensures
        forall|t: Seq<char>|
            has_key(buckets, t) ==> #[trigger] seq_ids_for(buckets.push(b), t) == seq_ids_for(
                buckets,
                t,
            ),
        !has_key(buckets, b.term@) ==> seq_ids_for(buckets.push(b), b.term@) == b.ids@,
        forall|t: Seq<char>|
            !has_key(buckets, t) && t != b.term@ ==> #[trigger] seq_ids_for(buckets.push(b), t)
                == seq_ids_for(buckets, t),
    decreases buckets.len(),
{
    if buckets.len() == 0 {
        assert(buckets.push(b).first() == b);
        assert(buckets.push(b).drop_first() =~= Seq::<Bucket>::empty());
        assert forall|t: Seq<char>|
            !has_key(buckets, t) && t != b.term@ implies #[trigger] seq_ids_for(
            buckets.push(b),
            t,
        ) == seq_ids_for(buckets, t) by {
            assert(seq_ids_for(buckets.push(b), t) == seq_ids_for(
                buckets.push(b).drop_first(),
                t,
            ));
        }
    } else {
        let rest = buckets.drop_first();
        let pushed = buckets.push(b);
        assert(pushed.first() == buckets.first());
        assert(pushed.drop_first() =~= rest.push(b));
        lemma_ids_for_push(rest, b);
        assert forall|t: Seq<char>|
            has_key(buckets, t) implies #[trigger] seq_ids_for(pushed, t) == seq_ids_for(
            buckets,
            t,
        ) by {
            if t != buckets.first().term@ {
                let j = choose|j: int| 0 <= j < buckets.len() && buckets[j].term@ == t;
                assert(rest[j - 1].term@ == t);
                assert(has_key(rest, t));
                assert(seq_ids_for(pushed, t) == seq_ids_for(rest.push(b), t));
                assert(seq_ids_for(rest.push(b), t) == seq_ids_for(rest, t));
                assert(seq_ids_for(buckets, t) == seq_ids_for(rest, t));
            }
        }
        assert forall|t: Seq<char>|
            !has_key(buckets, t) && t != b.term@ implies #[trigger] seq_ids_for(pushed, t)
            == seq_ids_for(buckets, t) by {
            assert(buckets[0].term@ != t);
            assert forall|k: int| 0 <= k < rest.len() implies #[trigger] rest[k].term@ != t by {
                assert(rest[k] == buckets[k + 1]);
                assert(buckets[k + 1].term@ != t);
            }
            assert(!has_key(rest, t));
            assert(seq_ids_for(pushed, t) == seq_ids_for(rest.push(b), t));
            assert(seq_ids_for(rest.push(b), t) == seq_ids_for(rest, t));
            assert(seq_ids_for(buckets, t) == seq_ids_for(rest, t));
        }
        if !has_key(buckets, b.term@) {
            assert(buckets[0].term@ != b.term@);
            assert forall|k: int|
                0 <= k < rest.len() implies #[trigger] rest[k].term@ != b.term@ by {
                assert(rest[k] == buckets[k + 1]);
                assert(buckets[k + 1].term@ != b.term@);
            }
            assert(!has_key(rest, b.term@));
            assert(seq_ids_for(pushed, b.term@) == seq_ids_for(rest.push(b), b.term@));
            assert(seq_ids_for(rest.push(b), b.term@) == b.ids@);
        }
    }
}

} // verus!
