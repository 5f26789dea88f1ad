//! An embeddable document store: encoded documents addressed by random ids,
//! queried by whole-payload equality, and kept durable in an append-only log.
//!
//! The store keeps payloads as the bytes a serializer produced and never
//! decodes them. Mutations mark documents as not yet written; `persist_log`
//! gives the records that bring the log up to date, and `mark_saved` records
//! that they were written. Deletions are written to the log too, so a deleted
//! document stays deleted after a restart.
use vstd::prelude::*;

pub mod document;
pub mod error;
pub mod ident;
pub mod laws;
pub mod record;
pub mod serializer;
pub mod store;

pub use document::{Document, Status};
pub use error::RedDbError;
pub use serializer::Serializers;
pub use store::Store;

use ident::random_id;
use record::{Entry, contains_newline, copy_range, entries_ok, has_newline, is_line, line_shape, log_bytes, replay_map};
use store::{has_id, holds, ids_unique, kept, matching_ids, retired, rewritten};

verus! {

/// How many ids `insert_one` draws before it gives up on finding a fresh one.
const ID_ATTEMPTS: u32 = 8;

/// A document store over one log.
pub struct RedDb {
    store: Store,
    format: Serializers,
}

impl View for RedDb {
    type V = Seq<Document>;

    open spec fn view(&self) -> Seq<Document> {
        self.index()@
    }
}

impl RedDb {
    /// The index behind the store.
    pub closed spec fn index(&self) -> Store {
        self.store
    }

    pub open spec fn wf(&self) -> bool {
        self.index().wf()
    }

    /// The encoding the store was opened with.
    pub closed spec fn format_spec(&self) -> Serializers {
        self.format
    }

    /// Opens a store from the contents of its log. A log opens exactly when it
    /// is a sequence of records, each ending in a newline, and then to the
    /// contents its records describe, all of them saved. A line that is not a
    /// record, or a last line without its newline, is refused.
    pub fn new(format: Serializers, log: &[u8]) -> (r: Result<RedDb, RedDbError>)
        ensures
            forall|es: Seq<Entry>|
                #[trigger] log_bytes(es) == log@ && entries_ok(es) ==> (r matches Ok(db) && holds(
                    db@,
                    replay_map(es),
                )),
            r is Ok <==> exists|es: Seq<Entry>| #[trigger] log_bytes(es) == log@ && entries_ok(es),
            r matches Ok(db) ==> exists|es: Seq<Entry>|
                #[trigger] log_bytes(es) == log@ && entries_ok(es) && holds(db@, replay_map(es)),
            (exists|a: int, b: int| #[trigger] is_line(log@, a, b) && !line_shape(log@.subrange(a, b)))
                ==> r == Err::<RedDb, RedDbError>(RedDbError::ContentLoad),
            log@.len() > 0 && log@.last() != 10u8 ==> r == Err::<RedDb, RedDbError>(RedDbError::ContentLoad),
            r matches Ok(db) ==> db.wf() && db.index().removed() == Seq::<u128>::empty()
                && db.format_spec() == format,
            r matches Err(e) ==> e == RedDbError::ContentLoad,
    {
        match Store::new(log) {
            Ok(store) => Ok(RedDb { store, format }),
            Err(e) => Err(e),
        }
    }

    /// The encoding the store was opened with.
    pub fn format(&self) -> (r: &Serializers)
        ensures
            *r == self.format_spec(),
    {
        &self.format
    }

    /// The number of documents.
    pub fn len(&self) -> (r: usize)
        ensures
            r == self@.len(),
    {
        self.store.len()
    }

    /// Draws ids until one was never issued by this store, at most
    /// `ID_ATTEMPTS` times. Where no id was ever issued the first draw is
    /// fresh.
    fn fresh_id(&self) -> (r: Result<u128, RedDbError>)
        ensures
            match r {
                Ok(id) => !self.index().issued().contains(id),
                Err(e) => e == RedDbError::IdCollision,
            },
            self.index().issued().len() == 0 ==> r is Ok,
    {
        let mut attempt: u32 = 0;
        while attempt < ID_ATTEMPTS
            invariant
                attempt <= ID_ATTEMPTS,
                self.index().issued().len() == 0 ==> attempt == 0,
            decreases ID_ATTEMPTS - attempt,
        {
            let id = random_id();
            if !self.store.is_issued(id) {
                return Ok(id);
            }
            attempt = attempt + 1;
        }
        Err(RedDbError::IdCollision)
    }

    /// Stores one encoded value under an id never issued before. A payload
    /// holding a newline byte cannot be written to the log and is refused;
    /// `IdCollision` comes only where every draw of `fresh_id` hit an issued
    /// id, so never while no id was issued.
    pub fn insert_one(&mut self, value: Vec<u8>) -> (r: Result<Document, RedDbError>)
        requires
            old(self).wf(),
        ensures
            final(self).wf(),
            final(self).format_spec() == old(self).format_spec(),
            final(self).index().removed() == old(self).index().removed(),
            has_newline(value@) <==> r == Err::<Document, RedDbError>(RedDbError::Serialization),
            !has_newline(value@) && old(self).index().issued().len() == 0 ==> r is Ok,
            forall|x: u128| retired(old(self).index(), x) ==> retired(final(self).index(), x),
            match r {
                Ok(doc) => {
                    &&& !old(self).index().issued().contains(doc.id)
                    &&& final(self).index().issued() == old(self).index().issued().push(doc.id)
                    &&& !has_id(old(self)@, doc.id)
                    &&& doc.data@ == value@
                    &&& doc.status == Status::NotSaved
                    &&& final(self)@.len() == old(self)@.len() + 1
                    &&& final(self)@.drop_last() == old(self)@
                    &&& final(self)@.last().id == doc.id
                    &&& final(self)@.last().data@ == value@
                    &&& final(self)@.last().status == Status::NotSaved
                },
                Err(e) => {
                    &&& final(self)@ == old(self)@
                    &&& final(self).index().issued() == old(self).index().issued()
                    &&& (e == RedDbError::Serialization || e == RedDbError::IdCollision)
                },
            },
    {
        if contains_newline(&value) {
            return Err(RedDbError::Serialization);
        }
        let id = match self.fresh_id() {
            Ok(id) => id,
            Err(e) => {
                return Err(e);
            },
        };
        let stored = copy_range(&value, 0, value.len());
        assert(value@.subrange(0, value@.len() as int) =~= value@);
        let ghost prev = self@;
        let ghost before = self.store;
        let added = self.store.insert(id, stored);
        assert(added);
        assert(self@.drop_last() =~= prev);
        proof {
            assert forall|x: u128| retired(before, x) implies retired(self.store, x) by {
                let j = choose|j: int| 0 <= j < before.issued().len() && before.issued()[j] == x;
                assert(self.store.issued()[j] == x);
                assert(x != id);
                if has_id(self@, x) {
                    let k = choose|k: int| 0 <= k < self@.len() && self@[k].id == x;
                    assert(k < prev.len());
                    assert(prev[k].id == x);
                }
            }
        }
        Ok(Document { id, data: value, status: Status::NotSaved })
    }

    /// Stores several encoded values, each under a fresh id, in order. Where
    /// any payload holds a newline byte nothing is stored.
    pub fn insert(&mut self, values: Vec<Vec<u8>>) -> (r: Result<Vec<Document>, RedDbError>)
        requires
            old(self).wf(),
        ensures
            final(self).wf(),
            final(self).format_spec() == old(self).format_spec(),
            final(self).index().removed() == old(self).index().removed(),
            (exists|i: int| 0 <= i < values@.len() && has_newline(#[trigger] values@[i]@)) <==> r
                == Err::<Vec<Document>, RedDbError>(RedDbError::Serialization),
            r == Err::<Vec<Document>, RedDbError>(RedDbError::Serialization) ==> final(self)@ == old(self)@,
            values@.len() == 0 ==> r is Ok,
            r == Err::<Vec<Document>, RedDbError>(RedDbError::IdCollision) ==> old(self).index().issued().len()
                + values@.len() >= 2,
            forall|x: u128| retired(old(self).index(), x) ==> retired(final(self).index(), x),
            final(self)@.len() >= old(self)@.len(),
            final(self)@.subrange(0, old(self)@.len() as int) == old(self)@,
            match r {
                Ok(docs) => {
                    &&& docs@.len() == values@.len()
                    &&& final(self)@.len() == old(self)@.len() + values@.len()
                    &&& forall|i: int|
                        0 <= i < values@.len() ==> {
                            &&& !old(self).index().issued().contains((#[trigger] docs@[i]).id)
                            &&& (#[trigger] docs@[i]).id == final(self)@[old(self)@.len() + i].id
                            &&& docs@[i].data@ == values@[i]@
                            &&& docs@[i].status == Status::NotSaved
                            &&& final(self)@[old(self)@.len() + i].data@ == values@[i]@
                            &&& final(self)@[old(self)@.len() + i].status == Status::NotSaved
                        }
                },
                Err(e) => e == RedDbError::Serialization || e == RedDbError::IdCollision,
            },
    {
        let mut i: usize = 0;
        while i < values.len()
            invariant
                *self == *old(self),
                self.wf(),
                i <= values@.len(),
                forall|j: int| 0 <= j < i ==> !has_newline(#[trigger] values@[j]@),
            decreases values@.len() - i,
        {
            if contains_newline(&values[i]) {
                return Err(RedDbError::Serialization);
            }
            i = i + 1;
        }
        let ghost start = self@;
        let mut docs: Vec<Document> = Vec::new();
        let ghost vals = values@;
        let mut k: usize = 0;
        assert(self@.subrange(0, start.len() as int) =~= start);
        while k < values.len()
            invariant
                self.wf(),
                self.format_spec() == old(self).format_spec(),
                self.index().removed() == old(self).index().removed(),
                vals == values@,
                k <= vals.len(),
                docs@.len() == k,
                self@.len() == start.len() + k,
                start == old(self)@,
                self@.subrange(0, start.len() as int) == start,
                self.index().issued().len() == old(self).index().issued().len() + k,
                forall|x: u128| old(self).index().issued().contains(x) ==> self.index().issued().contains(x),
                forall|x: u128| retired(old(self).index(), x) ==> retired(self.index(), x),
                forall|j: int| 0 <= j < vals.len() ==> !has_newline(#[trigger] vals[j]@),
                forall|j: int|
                    0 <= j < k ==> {
                        &&& !old(self).index().issued().contains((#[trigger] docs@[j]).id)
                        &&& docs@[j].id == self@[start.len() + j].id
                        &&& docs@[j].data@ == vals[j]@
                        &&& docs@[j].status == Status::NotSaved
                        &&& self@[start.len() + j].data@ == vals[j]@
                        &&& self@[start.len() + j].status == Status::NotSaved
                    },
            decreases vals.len() - k,
        {
            let value = copy_range(&values[k], 0, values[k].len());
            assert(vals[k as int]@.subrange(0, vals[k as int]@.len() as int) =~= vals[k as int]@);
            let ghost prev = self@;
            let ghost prev_issued = self.index().issued();
            match self.insert_one(value) {
                Ok(doc) => {
                    docs.push(doc);
                    proof {
                        assert forall|x: u128| old(self).index().issued().contains(x) implies self.index().issued().contains(x) by {
                            let j = choose|j: int| 0 <= j < prev_issued.len() && prev_issued[j] == x;
                            assert(self.index().issued()[j] == x);
                        }
                        let nid = docs@[k as int].id;
                        assert(!prev_issued.contains(nid));
                        assert(!old(self).index().issued().contains(nid));
                        assert forall|j: int| 0 <= j < start.len() + k implies self@[j] == prev[j] by {
                            assert(self@.drop_last()[j] == prev[j]);
                        }
                        assert(self@.subrange(0, start.len() as int) =~= start) by {
                            assert forall|j: int| 0 <= j < start.len() implies self@[j] == start[j] by {
                                assert(prev.subrange(0, start.len() as int)[j] == start[j]);
                            }
                        }
                    }
                },
                Err(e) => {
                    return Err(e);
                },
            }
            k = k + 1;
        }
        Ok(docs)
    }

    /// The document with the id; `NotFound` where there is none.
    pub fn find_one(&self, id: u128) -> (r: Result<Document, RedDbError>)
        ensures
            !has_id(self@, id) <==> r == Err::<Document, RedDbError>(RedDbError::NotFound { uuid: id }),
            match r {
                Ok(doc) => exists|i: int|
                    0 <= i < self@.len() && self@[i].id == id && doc.id == id && doc.data@
                        == self@[i].data@ && doc.status == self@[i].status,
                Err(e) => e == RedDbError::NotFound { uuid: id },
            },
    {
        match self.store.find_id(id) {
            Some(d) => {
                let data = copy_range(&d.data, 0, d.data.len());
                assert(d.data@.subrange(0, d.data@.len() as int) =~= d.data@);
                Ok(Document { id: d.id, data, status: d.status })
            },
            None => Err(RedDbError::NotFound { uuid: id }),
        }
    }

    /// The ids of the documents whose payload is exactly `search`, in index
    /// order.
    pub fn find_ids(&self, search: &[u8]) -> (r: Vec<u128>)
        ensures
            r@ == matching_ids(self@, search@),
    {
        self.store.find(search)
    }

    /// The documents whose payload is exactly `search`, in index order.
    pub fn find(&self, search: &[u8]) -> (r: Vec<Document>)
        requires
            self.wf(),
        ensures
            r@.len() == matching_ids(self@, search@).len(),
            forall|i: int|
                0 <= i < r@.len() ==> (#[trigger] r@[i]).id == matching_ids(self@, search@)[i]
                    && r@[i].data@ == search@ && exists|k: int|
                    0 <= k < self@.len() && self@[k].id == r@[i].id && self@[k].data@ == search@
                        && self@[k].status == r@[i].status,
    {
        let ids = self.store.find(search);
        let mut r: Vec<Document> = Vec::new();
        let mut i: usize = 0;
        proof {
            lemma_matching_ids_present(self@, search@);
            assert(self@ == self.store@);
            assert forall|j: int| 0 <= j < ids@.len() implies exists|k: int|
                0 <= k < self@.len() && self@[k].id == #[trigger] ids@[j] && self@[k].data@ == search@ by {
                assert(ids@[j] == matching_ids(self@, search@)[j]);
            }
        }
        while i < ids.len()
            invariant
                self.wf(),
                i <= ids@.len(),
                ids@ == matching_ids(self@, search@),
                r@.len() == i,
                forall|j: int|
                    0 <= j < ids@.len() ==> exists|k: int|
                        0 <= k < self@.len() && self@[k].id == #[trigger] ids@[j] && self@[k].data@
                            == search@,
                forall|j: int|
                    0 <= j < i ==> (#[trigger] r@[j]).id == ids@[j] && r@[j].data@ == search@
                        && exists|k: int|
                        0 <= k < self@.len() && self@[k].id == r@[j].id && self@[k].data@ == search@
                            && self@[k].status == r@[j].status,
            decreases ids@.len() - i,
        {
            let id = ids[i];
            match self.store.find_id(id) {
                Some(d) => {
                    let data = copy_range(&d.data, 0, d.data.len());
                    assert(d.data@.subrange(0, d.data@.len() as int) =~= d.data@);
                    proof {
                        let k = choose|k: int| 0 <= k < self@.len() && self@[k].id == id && self@[k].data@ == search@;
                        let k2 = choose|k2: int| 0 <= k2 < self@.len() && self@[k2].id == id && self@[k2] == *d;
                        assert(self@ == self.store@);
                        assert(ids_unique(self@));
                        assert(k == k2);
                    }
                    r.push(Document { id, data, status: d.status });
                },
                None => {
                    assert(has_id(self@, id));
                },
            }
            i = i + 1;
        }
        r
    }

    /// Gives the document with the id the encoded value `new_value`; false
    /// where no document has the id. A payload holding a newline byte is
    /// refused.
    pub fn update_one(&mut self, id: u128, new_value: &[u8]) -> (r: Result<bool, RedDbError>)
        requires
            old(self).wf(),
        ensures
            final(self).wf(),
            final(self).format_spec() == old(self).format_spec(),
            final(self).index().issued() == old(self).index().issued(),
            forall|x: u128| retired(old(self).index(), x) ==> retired(final(self).index(), x),
            final(self).index().removed() == old(self).index().removed(),
            has_newline(new_value@) ==> r == Err::<bool, RedDbError>(RedDbError::Serialization)
                && final(self)@ == old(self)@,
            !has_newline(new_value@) ==> r == Ok::<bool, RedDbError>(has_id(old(self)@, id)),
            r == Ok::<bool, RedDbError>(false) ==> final(self)@ == old(self)@,
            r == Ok::<bool, RedDbError>(true) ==> exists|i: int|
                0 <= i < old(self)@.len() && old(self)@[i].id == id && final(self)@ == old(self)@.update(i, Document { id, data: final(self)@[i].data, status: Status::NotSaved })
                    && final(self)@[i].data@ == new_value@,
    {
        if contains_newline(new_value) {
            return Err(RedDbError::Serialization);
        }
        let ghost prev = self.store@;
        let b = self.store.update_id(id, new_value);
        proof {
            if b {
                let i = choose|i: int|
                    0 <= i < prev.len() && prev[i].id == id && self.store@ == prev.update(
                        i,
                        Document { id, data: self.store@[i].data, status: Status::NotSaved },
                    ) && self.store@[i].data@ == new_value@;
                assert(0 <= i < old(self)@.len() && old(self)@[i].id == id && self@ == old(self)@.update(i, Document { id, data: self@[i].data, status: Status::NotSaved }) && self@[i].data@ == new_value@);
            }
        }
        Ok(b)
    }

    /// Gives every document whose payload is exactly `search` the encoded
    /// value `new_value`; returns how many there were. A payload holding a
    /// newline byte is refused.
    pub fn update(&mut self, search: &[u8], new_value: &[u8]) -> (r: Result<usize, RedDbError>)
        requires
            old(self).wf(),
        ensures
            final(self).wf(),
            final(self).format_spec() == old(self).format_spec(),
            final(self).index().issued() == old(self).index().issued(),
            forall|x: u128| retired(old(self).index(), x) ==> retired(final(self).index(), x),
            final(self).index().removed() == old(self).index().removed(),
            has_newline(new_value@) ==> r == Err::<usize, RedDbError>(RedDbError::Serialization)
                && final(self)@ == old(self)@,
            !has_newline(new_value@) ==> r == Ok::<usize, RedDbError>(
                matching_ids(old(self)@, search@).len() as usize,
            ),
            final(self)@.len() == old(self)@.len(),
            !has_newline(new_value@) ==> forall|i: int|
                0 <= i < old(self)@.len() ==> rewritten(
                    old(self)@[i],
                    #[trigger] final(self)@[i],
                    search@,
                    new_value@,
                ),
    {
        if contains_newline(new_value) {
            return Err(RedDbError::Serialization);
        }
        Ok(self.store.update(search, new_value))
    }

    /// Removes the document with the id; false where no document has it.
    pub fn delete_one(&mut self, id: u128) -> (r: Result<bool, RedDbError>)
        requires
            old(self).wf(),
        ensures
            final(self).wf(),
            final(self).format_spec() == old(self).format_spec(),
            final(self).index().issued() == old(self).index().issued(),
            forall|x: u128| retired(old(self).index(), x) ==> retired(final(self).index(), x),
            r == Ok::<bool, RedDbError>(has_id(old(self)@, id)),
            r == Ok::<bool, RedDbError>(true) ==> retired(final(self).index(), id),
            !has_id(final(self)@, id),
            r == Ok::<bool, RedDbError>(false) ==> final(self)@ == old(self)@ && final(self).index().removed() == old(self).index().removed(),
            r == Ok::<bool, RedDbError>(true) ==> final(self).index().removed() == old(self).index().removed().push(id) && exists|i: int|
                0 <= i < old(self)@.len() && old(self)@[i].id == id && final(self)@ == old(self)@.remove(i),
    {
        let ghost prev = self.store@;
        let b = self.store.delete_id(id);
        proof {
            if b {
                let i = choose|i: int| 0 <= i < prev.len() && prev[i].id == id && self.store@ == prev.remove(i);
                assert(0 <= i < old(self)@.len() && old(self)@[i].id == id && self@ == old(self)@.remove(i));
            }
        }
        Ok(b)
    }

    /// Removes every document whose payload is exactly `search`; returns how
    /// many there were.
    pub fn delete(&mut self, search: &[u8]) -> (r: Result<usize, RedDbError>)
        requires
            old(self).wf(),
        ensures
            final(self).wf(),
            final(self).format_spec() == old(self).format_spec(),
            final(self).index().issued() == old(self).index().issued(),
            forall|x: u128| retired(old(self).index(), x) ==> retired(final(self).index(), x),
            final(self)@ == kept(old(self)@, search@),
            final(self).index().removed() == old(self).index().removed() + matching_ids(
                old(self)@,
                search@,
            ),
            r == Ok::<usize, RedDbError>(matching_ids(old(self)@, search@).len() as usize),
    {
        Ok(self.store.delete(search))
    }

    /// The log records that bring the log up to date: one deletion marker per
    /// document deleted, then one record per document not yet written.
    pub fn persist_log(&self) -> (r: Vec<u8>)
        requires
            self.wf(),
        ensures
            r@ == log_bytes(self.index().pending_entries()),
            entries_ok(self.index().pending_entries()),
    {
        self.store.pending_log()
    }

    /// Records that the records of `persist_log` were written.
    pub fn mark_saved(&mut self)
        requires
            old(self).wf(),
        ensures
            final(self).wf(),
            final(self).format_spec() == old(self).format_spec(),
            final(self).index().issued() == old(self).index().issued(),
            forall|x: u128| retired(old(self).index(), x) ==> retired(final(self).index(), x),
            final(self)@.len() == old(self)@.len(),
            forall|i: int|
                0 <= i < old(self)@.len() ==> (#[trigger] final(self)@[i]).id == old(self)@[i].id
                    && final(self)@[i].data == old(self)@[i].data && final(self)@[i].status
                    == Status::Saved,
            final(self).index().pending_entries() == Seq::<Entry>::empty(),
    {
        self.store.mark_saved();
    }
}

/// Every id `matching_ids` gives is the id of a document with that payload.
proof fn lemma_matching_ids_present(s: Seq<Document>, p: Seq<u8>)
    ensures
        forall|j: int|
            0 <= j < matching_ids(s, p).len() ==> exists|k: int|
                0 <= k < s.len() && s[k].id == #[trigger] matching_ids(s, p)[j] && s[k].data@ == p,
    decreases s.len(),
{
    if s.len() > 0 {
        let t = s.drop_last();
        lemma_matching_ids_present(t, p);
        assert forall|j: int| 0 <= j < matching_ids(s, p).len() implies exists|k: int|
                0 <= k < s.len() && s[k].id == #[trigger] matching_ids(s, p)[j] && s[k].data@ == p by {
            if j < matching_ids(t, p).len() {
                let x = matching_ids(t, p)[j];
                let k = choose|k: int| 0 <= k < t.len() && t[k].id == x && t[k].data@ == p;
                assert(s[k] == t[k]);
            } else {
                assert(s[s.len() - 1].id == matching_ids(s, p)[j]);
            }
        }
    }
}

} // verus!
