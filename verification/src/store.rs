//! The entry store: the authoritative sequence of (term, definition) records.
//!
//! Identifiers are allocated monotonically: the id of an entry is its
//! position in insertion order, so lookup by id is a direct index.

use vstd::prelude::*;

use crate::error::DictError;
use crate::normalize::is_normal;

verus! {

/// A stored record: a normalized, non-empty term and its definition.
pub struct Entry {
    /// The entry's identifier, its position in insertion order.
    pub id: usize,
    /// The normalized term under which the entry is indexed.
    pub term: String,
    /// The definition text carried by the entry.
    pub definition: String,
}

/// A well-formed entry: the term is in normal form and non-empty.
pub open spec fn entry_ok(e: Entry) -> bool {
    is_normal(e.term@) && e.term@.len() > 0
}

/// The sequence of (term, definition) records, in insertion order.
pub struct EntryStore {
    entries: Vec<Entry>,
}

impl View for EntryStore {
    type V = Seq<Entry>;

    closed spec fn view(&self) -> Seq<Entry> {
        self.entries@
    }
}

impl EntryStore {
    /// A well-formed store: each entry is well formed and carries its own
    /// position as its id.
    pub open spec fn wf(&self) -> bool {
        forall|i: int|
            0 <= i < self@.len() ==> #[trigger] self@[i].id == i && entry_ok(self@[i])
    }

    /// Create an empty store.
    pub fn new() -> (s: EntryStore)
        ensures
            s@ == Seq::<Entry>::empty(),
            s.wf(),
    {
        EntryStore { entries: Vec::new() }
    }

    /// The number of live entries; also the next id to be allocated.
    pub fn len(&self) -> (n: usize)
        ensures
            n == self@.len(),
    {
        self.entries.len()
    }

    /// Append a new entry under a freshly allocated, monotonically increasing
    /// id. The term must already be normalized; an empty term is rejected
    /// with `InvalidInput` and leaves the store unchanged.
    pub fn insert(&mut self, term: String, definition: String) -> (r: Result<usize, DictError>)
        requires
            old(self).wf(),
            is_normal(term@),
        ensures
            final(self).wf(),
            term@.len() == 0 ==> r == Err::<usize, DictError>(DictError::InvalidInput)
                && final(self)@ == old(self)@,
            term@.len() > 0 ==> {
                &&& r == Ok::<usize, DictError>(old(self)@.len() as usize)
                &&& final(self)@.len() == old(self)@.len() + 1
                &&& final(self)@.drop_last() == old(self)@
                &&& final(self)@.last().id == old(self)@.len()
                &&& final(self)@.last().term@ == term@
                &&& final(self)@.last().definition@ == definition@
            },
    {
        if term.as_str().is_empty() {
            Err(DictError::InvalidInput)
        } else {
            let id = self.entries.len();
            self.entries.push(Entry { id, term, definition });
            proof {
                assert(self@.drop_last() =~= old(self)@);
            }
            Ok(id)
        }
    }

    /// The entries live in one vector, so their number fits in `usize`.
    pub proof fn lemma_len_bound(&self)
        ensures
            self@.len() <= usize::MAX,
    {
        assert(vstd::std_specs::vec::spec_vec_len(&self.entries) == self.entries@.len());
    }

    /// Fetch the entry with the given id, or `None` when the id was never
    /// allocated.
    pub fn get(&self, id: usize) -> (r: Option<&Entry>)
        ensures
            r is Some <==> id < self@.len(),
            r matches Some(e) ==> *e == self@[id as int],
    {
        if id < self.entries.len() {
            Some(&self.entries[id])
        } else {
            None
        }
    }

    /// The full sequence of entries in insertion order, for bulk re-indexing.
    pub fn scan(&self) -> (r: &Vec<Entry>)
        ensures
            r@ == self@,
    {
        &self.entries
    }
}

} // verus!
