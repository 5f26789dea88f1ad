//! The in-memory index: documents in insertion order, ids unique, with the
//! deletions that the log has not yet recorded.
use vstd::prelude::*;
use crate::document::{Document, Status};
use crate::error::RedDbError;
use crate::ident::uuid_text;
use crate::record::{
    Entry, has_newline, apply_entry, bytes_eq, copy_range, decode_line, entries_ok, entry_ok, lemma_line_no_newline,
    is_line, lemma_log_at, lemma_record_line_parts, line_shape, log_bytes, next_newline, payload_view, record_bytes,
    record_line, replay_map, write_put, write_removal,
};

verus! {

/// No two documents share an id.
pub open spec fn ids_unique(s: Seq<Document>) -> bool {
    forall|i: int, j: int| 0 <= i < s.len() && 0 <= j < s.len() && i != j ==> s[i].id != s[j].id
}

/// Whether some document has the id.
pub open spec fn has_id(s: Seq<Document>, id: u128) -> bool {
    exists|i: int| 0 <= i < s.len() && s[i].id == id
}

/// The ids of the documents whose payload is exactly `p`, in index order.
pub open spec fn matching_ids(s: Seq<Document>, p: Seq<u8>) -> Seq<u128>
    decreases s.len(),
{
    if s.len() == 0 {
        Seq::empty()
    } else {
        let r = matching_ids(s.drop_last(), p);
        if s.last().data@ == p {
            r.push(s.last().id)
        } else {
            r
        }
    }
}

/// The documents whose payload is not `p`, in index order.
pub open spec fn kept(s: Seq<Document>, p: Seq<u8>) -> Seq<Document>
    decreases s.len(),
{
    if s.len() == 0 {
        Seq::empty()
    } else {
        let r = kept(s.drop_last(), p);
        if s.last().data@ != p {
            r.push(s.last())
        } else {
            r
        }
    }
}

/// The records that store the payloads not yet written to the log.
pub open spec fn dirty_entries(s: Seq<Document>) -> Seq<Entry>
    decreases s.len(),
{
    if s.len() == 0 {
        Seq::empty()
    } else {
        let r = dirty_entries(s.drop_last());
        if s.last().status == Status::NotSaved {
            r.push((s.last().id, Some(s.last().data@)))
        } else {
            r
        }
    }
}

/// The records that mark the given ids as deleted.
pub open spec fn removal_entries(ids: Seq<u128>) -> Seq<Entry> {
    ids.map_values(|x: u128| (x, None::<Seq<u8>>))
}

/// The documents hold exactly the contents `m`, all of them saved.
pub open spec fn holds(s: Seq<Document>, m: Map<u128, Seq<u8>>) -> bool {
    &&& forall|id: u128| #[trigger] m.contains_key(id) <==> has_id(s, id)
    &&& forall|i: int|
        0 <= i < s.len() ==> m[(#[trigger] s[i]).id] == s[i].data@ && s[i].status == Status::Saved
}

/// The first records of `es`, up to byte `pos` of their log, have been read
/// into the documents `s`.
pub open spec fn replayed_to(es: Seq<Entry>, pos: int, s: Seq<Document>) -> bool {
    exists|k: int| 0 <= k <= es.len() && pos == log_bytes(es.take(k)).len() && holds(s, replay_map(es.take(k)))
}

/// Reading the next line of a well-formed log: the line that starts at `pos`
/// and ends at `end` is the next record.
proof fn lemma_replay_step(log: Seq<u8>, es: Seq<Entry>, pos: int, end: int, s: Seq<Document>) -> (k: int)
    requires
        log == log_bytes(es),
        entries_ok(es),
        replayed_to(es, pos, s),
        0 <= pos < log.len(),
        pos <= end <= log.len(),
        forall|i: int| pos <= i < end ==> log[i] != 10u8,
        end < log.len() ==> log[end] == 10u8,
    ensures
        0 <= k < es.len(),
        pos == log_bytes(es.take(k)).len(),
        holds(s, replay_map(es.take(k))),
        end < log.len(),
        end + 1 == log_bytes(es.take(k + 1)).len(),
        log.subrange(pos, end) == record_line(es[k]),
        line_shape(record_line(es[k])),
        record_line(es[k]).subrange(8, 44) == uuid_text(es[k].0),
        es[k].1 is None ==> record_line(es[k]).len() == 46,
        es[k].1 is Some ==> record_line(es[k]).len() == 54 + es[k].1->0.len() && record_line(
            es[k],
        ).subrange(53, record_line(es[k]).len() - 1) == es[k].1->0,
{
    let k = choose|k: int| 0 <= k <= es.len() && pos == log_bytes(es.take(k)).len() && holds(s, replay_map(es.take(k)));
    if k == es.len() {
        assert(es.take(k) =~= es);
    }
    lemma_log_at(es, k);
    assert(entry_ok(es[k]));
    lemma_line_no_newline(es[k]);
    lemma_record_line_parts(es[k]);
    let rl = record_line(es[k]);
    let b = log_bytes(es.take(k + 1)).len() as int;
    assert(log.subrange(pos, b) == record_bytes(es[k]));
    assert forall|i: int| pos <= i < b - 1 implies log[i] != 10u8 by {
        assert(log.subrange(pos, b)[i - pos] == rl[i - pos]);
    }
    assert(log.subrange(pos, b)[b - 1 - pos] == 10u8);
    assert(log[b - 1] == 10u8);
    assert(end == b - 1);
    assert(log.subrange(pos, end) =~= rl);
    k
}

/// How `update` leaves one document: rewritten where its payload was `p`,
/// untouched elsewhere.
pub open spec fn rewritten(before: Document, after: Document, p: Seq<u8>, q: Seq<u8>) -> bool {
    if before.data@ == p {
        &&& after.id == before.id
        &&& after.data@ == q
        &&& after.status == Status::NotSaved
    } else {
        after == before
    }
}

/// No payload holds a newline byte.
pub open spec fn payloads_ok(s: Seq<Document>) -> bool {
    forall|i: int| 0 <= i < s.len() ==> !has_newline(#[trigger] s[i].data@)
}

/// An id that was issued and whose document is gone: it stays gone.
pub open spec fn retired(st: Store, x: u128) -> bool {
    st.issued().contains(x) && !has_id(st@, x)
}

/// The document index.
pub struct Store {
    docs: Vec<Document>,
    removed: Vec<u128>,
    issued: Vec<u128>,
}

impl View for Store {
    type V = Seq<Document>;

    closed spec fn view(&self) -> Seq<Document> {
        self.docs@
    }
}

impl Store {
    /// Ids deleted since the log was last written.
    pub closed spec fn removed(&self) -> Seq<u128> {
        self.removed@
    }

    /// Every id this index has ever held, deleted ones included.
    pub closed spec fn issued(&self) -> Seq<u128> {
        self.issued@
    }

    /// Ids are unique, every payload fits on one log line, and every live id
    /// is among the issued ones.
    pub open spec fn wf(&self) -> bool {
        &&& ids_unique(self@)
        &&& payloads_ok(self@)
        &&& forall|i: int| 0 <= i < self@.len() ==> self.issued().contains(#[trigger] self@[i].id)
    }

    /// The records that bring the log up to date: deletions first, then the
    /// payloads not yet written.
    pub open spec fn pending_entries(&self) -> Seq<Entry> {
        removal_entries(self.removed()) + dirty_entries(self@)
    }

    /// An empty index.
    pub fn empty() -> (r: Store)
        ensures
            r@ == Seq::<Document>::empty(),
            r.removed() == Seq::<u128>::empty(),
            r.issued() == Seq::<u128>::empty(),
            r.wf(),
    {
        Store { docs: Vec::new(), removed: Vec::new(), issued: Vec::new() }
    }

    /// Whether the id was ever issued by this index.
    pub fn is_issued(&self, id: u128) -> (r: bool)
        ensures
            r == self.issued().contains(id),
    {
        let mut i: usize = 0;
        while i < self.issued.len()
            invariant
                i <= self.issued@.len(),
                forall|j: int| 0 <= j < i ==> self.issued@[j] != id,
            decreases self.issued@.len() - i,
        {
            if self.issued[i] == id {
                return true;
            }
            i = i + 1;
        }
        false
    }

    /// Reads an index back from its log. A log loads exactly when it is a
    /// sequence of records, each ending in a newline, and then to the contents
    /// its records describe. A line that is not a record, or a last line
    /// without its newline, is refused.
    pub fn new(log: &[u8]) -> (r: Result<Store, RedDbError>)
        ensures
            forall|es: Seq<Entry>|
                #[trigger] log_bytes(es) == log@ && entries_ok(es) ==> (r matches Ok(st) && holds(
                    st@,
                    replay_map(es),
                )),
            r is Ok <==> exists|es: Seq<Entry>| #[trigger] log_bytes(es) == log@ && entries_ok(es),
            r matches Ok(st) ==> exists|es: Seq<Entry>|
                #[trigger] log_bytes(es) == log@ && entries_ok(es) && holds(st@, replay_map(es)),
            (exists|a: int, b: int| #[trigger] is_line(log@, a, b) && !line_shape(log@.subrange(a, b)))
                ==> r == Err::<Store, RedDbError>(RedDbError::ContentLoad),
            log@.len() > 0 && log@.last() != 10u8 ==> r == Err::<Store, RedDbError>(RedDbError::ContentLoad),
            r matches Ok(st) ==> st.wf() && st.removed() == Seq::<u128>::empty(),
            r matches Err(e) ==> e == RedDbError::ContentLoad,
    {
        let mut st = Store::empty();
        let mut pos: usize = 0;
        let ghost mut ges: Seq<Entry> = Seq::empty();
        proof {
            assert forall|es: Seq<Entry>| #[trigger] log_bytes(es) == log@ && entries_ok(es) implies replayed_to(es, pos as int, st@) by {
                assert(es.take(0) =~= Seq::<Entry>::empty());
                assert(log_bytes(es.take(0)).len() == 0);
            }
            assert(log@.subrange(0, 0) =~= log_bytes(ges));
            assert(replay_map(ges) =~= Map::<u128, Seq<u8>>::empty());
        }
        while pos < log.len()
            invariant
                pos <= log@.len(),
                st.wf(),
                st.removed() == Seq::<u128>::empty(),
                forall|es: Seq<Entry>|
                    #[trigger] log_bytes(es) == log@ && entries_ok(es) ==> replayed_to(es, pos as int, st@),
                pos == 0 || log@[pos - 1] == 10u8,
                forall|a: int, b: int|
                    #[trigger] is_line(log@, a, b) && a < pos ==> line_shape(log@.subrange(a, b)),
                log@.subrange(0, pos as int) == log_bytes(ges),
                entries_ok(ges),
                holds(st@, replay_map(ges)),
            decreases log@.len() - pos,
        {
            let end = next_newline(log, pos);
            let ghost prev = st@;
            if end == log.len() {
                proof {
                    assert forall|es: Seq<Entry>| #[trigger] log_bytes(es) == log@ && entries_ok(es) implies false by {
                        let k = lemma_replay_step(log@, es, pos as int, end as int, prev);
                    }
                }
                return Err(RedDbError::ContentLoad);
            }
            let line = copy_range(log, pos, end);
            let decoded = decode_line(&line);
            match decoded {
                None => {
                    proof {
                        assert forall|es: Seq<Entry>| #[trigger] log_bytes(es) == log@ && entries_ok(es) implies false by {
                            let k = lemma_replay_step(log@, es, pos as int, end as int, prev);
                            assert(uuid_text(es[k].0) == line@.subrange(8, 44));
                        }
                    }
                    return Err(RedDbError::ContentLoad);
                },
                Some((id, d)) => {
                    let ghost dg = d;
                    let ghost e: Entry = (id, payload_view(d));
                    proof {
                        if e.1 is Some {
                            assert forall|i: int| 0 <= i < e.1->0.len() implies e.1->0[i] != 10u8 by {
                                assert(e.1->0[i] == line@[53 + i]);
                            }
                        }
                        assert(entry_ok(e));
                    }
                    st.apply(id, d);
                    proof {
                        assert forall|es: Seq<Entry>| #[trigger] log_bytes(es) == log@ && entries_ok(es) implies replayed_to(es, end + 1, st@) by {
                            let k = lemma_replay_step(log@, es, pos as int, end as int, prev);
                            assert(uuid_text(es[k].0) == line@.subrange(8, 44));
                            assert(id == es[k].0);
                            assert(payload_view(dg) == es[k].1);
                            assert(es.take(k + 1).drop_last() =~= es.take(k));
                            assert(replay_map(es.take(k + 1)) == apply_entry(replay_map(es.take(k)), es[k]));
                            assert(holds(st@, replay_map(es.take(k + 1))));
                        }
                        assert forall|a: int, b: int| #[trigger] is_line(log@, a, b) && a < end + 1 implies line_shape(log@.subrange(a, b)) by {
                            if a == pos {
                                if b < end {
                                    assert(log@[b] != 10u8);
                                }
                                if b > end {
                                    assert(log@[end as int] != 10u8);
                                }
                                assert(b == end);
                            } else if a > pos {
                                assert(log@[a - 1] != 10u8);
                            }
                        }
                        let old_ges = ges;
                        assert(old_ges.push(e).drop_last() =~= old_ges);
                        assert(log@.subrange(0, end + 1) =~= log@.subrange(0, pos as int) + record_bytes(e));
                        ges = ges.push(e);
                        assert forall|i: int| 0 <= i < ges.len() implies #[trigger] entry_ok(ges[i]) by {
                            if i < old_ges.len() {
                                assert(ges[i] == old_ges[i]);
                            }
                        }
                    }
                },
            }
            pos = end + 1;
        }
        proof {
            assert forall|es: Seq<Entry>| #[trigger] log_bytes(es) == log@ && entries_ok(es) implies holds(st@, replay_map(es)) by {
                let k = choose|k: int|
                    0 <= k <= es.len() && pos == log_bytes(es.take(k)).len() && holds(st@, replay_map(es.take(k)));
                if k < es.len() {
                    lemma_log_at(es, k);
                }
                assert(es.take(k) =~= es);
            }
            assert(log@.subrange(0, pos as int) =~= log@);
            assert(log_bytes(ges) == log@ && entries_ok(ges) && holds(st@, replay_map(ges)));
        }
        Ok(st)
    }

    /// Applies one record read from the log.
    fn apply(&mut self, id: u128, data: Option<Vec<u8>>)
        requires
            old(self).wf(),
            entry_ok((id, payload_view(data))),
        ensures
            final(self).wf(),
            final(self).removed() == old(self).removed(),
            forall|m: Map<u128, Seq<u8>>|
                #[trigger] holds(old(self)@, m) ==> holds(final(self)@, apply_entry(m, (id, payload_view(data)))),
    {
        let ghost prev = self@;
        let ghost pv = payload_view(data);
        match data {
            Some(d) => match self.position(id) {
                Some(i) => {
                    self.docs.set(i, Document { id, data: d, status: Status::Saved });
                    proof {
                        assert forall|a: int| 0 <= a < self@.len() implies !has_newline((#[trigger] self@[a]).data@)
                            && self.issued().contains(self@[a].id) by {
                            if a != i {
                                assert(self@[a] == prev[a]);
                            } else {
                                assert(self.issued().contains(prev[a].id));
                            }
                        }
                        assert forall|a: int, b: int|
                            0 <= a < self@.len() && 0 <= b < self@.len() && a != b implies self@[a].id
                            != self@[b].id by {
                            assert(self@[a].id == prev[a].id);
                            assert(self@[b].id == prev[b].id);
                        }
                        assert forall|m: Map<u128, Seq<u8>>| #[trigger] holds(prev, m) implies holds(self@, apply_entry(m, (id, pv))) by {
                            let m2 = apply_entry(m, (id, pv));
                            assert forall|x: u128| #[trigger] m2.contains_key(x) <==> has_id(self@, x) by {
                                if has_id(prev, x) {
                                    let j = choose|j: int| 0 <= j < prev.len() && prev[j].id == x;
                                    assert(self@[j].id == x);
                                }
                                if has_id(self@, x) {
                                    let j = choose|j: int| 0 <= j < self@.len() && self@[j].id == x;
                                    assert(prev[j].id == x);
                                }
                            }
                            assert forall|j: int| 0 <= j < self@.len() implies m2[(#[trigger] self@[j]).id] == self@[j].data@ && self@[j].status == Status::Saved by {
                                if j != i {
                                    assert(self@[j] == prev[j]);
                                }
                            }
                        }
                    }
                },
                None => {
                    let ghost prev_issued = self.issued@;
                    if !self.is_issued(id) {
                        self.issued.push(id);
                        assert(self.issued@[self.issued@.len() - 1] == id);
                    }
                    self.docs.push(Document { id, data: d, status: Status::Saved });
                    proof {
                        assert(self.issued().contains(id));
                        assert forall|a: int| 0 <= a < self@.len() implies !has_newline((#[trigger] self@[a]).data@)
                            && self.issued().contains(self@[a].id) by {
                            if a < prev.len() {
                                assert(self@[a] == prev[a]);
                                assert(prev_issued.contains(prev[a].id));
                                let j = choose|j: int| 0 <= j < prev_issued.len() && prev_issued[j] == prev[a].id;
                                assert(self.issued@[j] == prev_issued[j]);
                            }
                        }
                        assert forall|m: Map<u128, Seq<u8>>| #[trigger] holds(prev, m) implies holds(self@, apply_entry(m, (id, pv))) by {
                            let m2 = apply_entry(m, (id, pv));
                            assert forall|x: u128| #[trigger] m2.contains_key(x) <==> has_id(self@, x) by {
                                if has_id(prev, x) {
                                    let j = choose|j: int| 0 <= j < prev.len() && prev[j].id == x;
                                    assert(self@[j].id == x);
                                }
                                if has_id(self@, x) && x != id {
                                    let j = choose|j: int| 0 <= j < self@.len() && self@[j].id == x;
                                    assert(prev[j].id == x);
                                }
                                assert(self@[self@.len() - 1].id == id);
                            }
                        }
                    }
                },
            },
            None => match self.position(id) {
                Some(i) => {
                    self.docs.remove(i);
                    proof {
                        assert forall|a: int, b: int|
                            0 <= a < self@.len() && 0 <= b < self@.len() && a != b implies self@[a].id
                            != self@[b].id by {
                            let a2 = if a < i { a } else { a + 1 };
                            let b2 = if b < i { b } else { b + 1 };
                            assert(self@[a] == prev[a2]);
                            assert(self@[b] == prev[b2]);
                        }
                        assert forall|a: int| 0 <= a < self@.len() implies !has_newline((#[trigger] self@[a]).data@)
                            && self.issued().contains(self@[a].id) by {
                            let a2 = if a < i { a } else { a + 1 };
                            assert(self@[a] == prev[a2]);
                        }
                        assert forall|m: Map<u128, Seq<u8>>| #[trigger] holds(prev, m) implies holds(self@, apply_entry(m, (id, pv))) by {
                            let m2 = apply_entry(m, (id, pv));
                            assert forall|x: u128| #[trigger] m2.contains_key(x) <==> has_id(self@, x) by {
                                if has_id(prev, x) && x != id {
                                    let j = choose|j: int| 0 <= j < prev.len() && prev[j].id == x;
                                    assert(j != i);
                                    if j < i {
                                        assert(self@[j].id == x);
                                    } else {
                                        assert(self@[j - 1].id == x);
                                    }
                                }
                                if has_id(self@, x) {
                                    let j = choose|j: int| 0 <= j < self@.len() && self@[j].id == x;
                                    let j2 = if j < i { j } else { j + 1 };
                                    assert(prev[j2].id == x);
                                    assert(j2 != i);
                                }
                            }
                            assert forall|j: int| 0 <= j < self@.len() implies m2[(#[trigger] self@[j]).id] == self@[j].data@ && self@[j].status == Status::Saved by {
                                let j2 = if j < i { j } else { j + 1 };
                                assert(self@[j] == prev[j2]);
                                assert(j2 != i);
                            }
                        }
                    }
                },
                None => {
                    proof {
                        assert forall|m: Map<u128, Seq<u8>>| #[trigger] holds(prev, m) implies holds(self@, apply_entry(m, (id, pv))) by {
                            assert(!m.contains_key(id));
                            assert(m.remove(id) =~= m);
                        }
                    }
                },
            },
        }
    }

    /// The number of documents.
    pub fn len(&self) -> (r: usize)
        ensures
            r == self@.len(),
    {
        self.docs.len()
    }

    /// Where the document with the id stands.
    fn position(&self, id: u128) -> (r: Option<usize>)
        ensures
            match r {
                Some(i) => i < self@.len() && self@[i as int].id == id,
                None => !has_id(self@, id),
            },
    {
        let mut i: usize = 0;
        while i < self.docs.len()
            invariant
                i <= self@.len(),
                forall|j: int| 0 <= j < i ==> self@[j].id != id,
            decreases self@.len() - i,
        {
            if self.docs[i].id == id {
                return Some(i);
            }
            i = i + 1;
        }
        None
    }

    /// The document with the id, if there is one.
    pub fn find_id(&self, id: u128) -> (r: Option<&Document>)
        ensures
            match r {
                Some(d) => exists|i: int| 0 <= i < self@.len() && self@[i].id == id && self@[i] == *d,
                None => !has_id(self@, id),
            },
    {
        match self.position(id) {
            Some(i) => Some(&self.docs[i]),
            None => None,
        }
    }

    /// Adds a document under an id never issued before; refuses an id that
    /// was.
    pub fn insert(&mut self, id: u128, data: Vec<u8>) -> (r: bool)
        requires
            old(self).wf(),
            !has_newline(data@),
        ensures
            final(self).wf(),
            r == !old(self).issued().contains(id),
            final(self).removed() == old(self).removed(),
            r ==> final(self)@ == old(self)@.push(Document { id, data, status: Status::NotSaved }),
            r ==> final(self).issued() == old(self).issued().push(id),
            !r ==> final(self)@ == old(self)@ && final(self).issued() == old(self).issued(),
    {
        if self.is_issued(id) {
            return false;
        }
        let ghost prev = self@;
        let ghost prev_issued = self.issued@;
        self.docs.push(Document { id, data, status: Status::NotSaved });
        self.issued.push(id);
        proof {
            assert forall|i: int| 0 <= i < self@.len() implies self.issued().contains(#[trigger] self@[i].id) by {
                if i < prev.len() {
                    assert(prev_issued.contains(prev[i].id));
                    let j = choose|j: int| 0 <= j < prev_issued.len() && prev_issued[j] == prev[i].id;
                    assert(self.issued@[j] == prev_issued[j]);
                } else {
                    assert(self.issued@[self.issued@.len() - 1] == id);
                }
            }
            assert forall|a: int, b: int|
                0 <= a < self@.len() && 0 <= b < self@.len() && a != b implies self@[a].id != self@[b].id by {
                if a < prev.len() && b == prev.len() {
                    assert(prev_issued.contains(prev[a].id));
                }
                if b < prev.len() && a == prev.len() {
                    assert(prev_issued.contains(prev[b].id));
                }
            }
        }
        true
    }

    /// The ids of the documents whose payload is exactly `p`.
    pub fn find(&self, p: &[u8]) -> (r: Vec<u128>)
        ensures
            r@ == matching_ids(self@, p@),
    {
        let mut r: Vec<u128> = Vec::new();
        let mut i: usize = 0;
        while i < self.docs.len()
            invariant
                i <= self@.len(),
                r@ == matching_ids(self@.take(i as int), p@),
            decreases self@.len() - i,
        {
            assert(self@.take(i + 1).drop_last() =~= self@.take(i as int));
            if bytes_eq(&self.docs[i].data, p) {
                r.push(self.docs[i].id);
            }
            i = i + 1;
        }
        assert(self@.take(i as int) =~= self@);
        r
    }

    /// Gives every document whose payload is exactly `p` the payload `q`,
    /// marked not yet written; returns how many there were.
    pub fn update(&mut self, p: &[u8], q: &[u8]) -> (r: usize)
        requires
            old(self).wf(),
            !has_newline(q@),
        ensures
            final(self).wf(),
            r == matching_ids(old(self)@, p@).len(),
            final(self).removed() == old(self).removed(),
            final(self).issued() == old(self).issued(),
            forall|x: u128| has_id(final(self)@, x) <==> has_id(old(self)@, x),
            final(self)@.len() == old(self)@.len(),
            forall|i: int|
                0 <= i < old(self)@.len() ==> rewritten(old(self)@[i], #[trigger] final(self)@[i], p@, q@),
    {
        let ghost old_docs = self@;
        let mut count: usize = 0;
        let mut i: usize = 0;
        while i < self.docs.len()
            invariant
                i <= self@.len(),
                self@.len() == old_docs.len(),
                self.removed() == old(self).removed(),
                old_docs == old(self)@,
                self.issued() == old(self).issued(),
                count == matching_ids(old_docs.take(i as int), p@).len(),
                count <= i,
                forall|j: int| i <= j < old_docs.len() ==> self@[j] == old_docs[j],
                forall|j: int| 0 <= j < i ==> rewritten(old_docs[j], #[trigger] self@[j], p@, q@),
            decreases old_docs.len() - i,
        {
            assert(old_docs.take(i + 1).drop_last() =~= old_docs.take(i as int));
            if bytes_eq(&self.docs[i].data, p) {
                let id = self.docs[i].id;
                let data = copy_range(q, 0, q.len());
                assert(q@.subrange(0, q@.len() as int) =~= q@);
                self.docs.set(i, Document { id, data, status: Status::NotSaved });
                count = count + 1;
            }
            i = i + 1;
        }
        assert(old_docs.take(i as int) =~= old_docs);
        proof {
            assert forall|a: int, b: int|
                0 <= a < self@.len() && 0 <= b < self@.len() && a != b implies self@[a].id
                != self@[b].id by {
                assert(rewritten(old_docs[a], self@[a], p@, q@));
                assert(rewritten(old_docs[b], self@[b], p@, q@));
            }
            assert forall|a: int| 0 <= a < self@.len() implies !has_newline((#[trigger] self@[a]).data@)
                && self.issued().contains(self@[a].id) by {
                assert(rewritten(old_docs[a], self@[a], p@, q@));
            }
            assert forall|x: u128| has_id(self@, x) <==> has_id(old_docs, x) by {
                if has_id(self@, x) {
                    let a = choose|a: int| 0 <= a < self@.len() && self@[a].id == x;
                    assert(rewritten(old_docs[a], self@[a], p@, q@));
                }
                if has_id(old_docs, x) {
                    let a = choose|a: int| 0 <= a < old_docs.len() && old_docs[a].id == x;
                    assert(rewritten(old_docs[a], self@[a], p@, q@));
                }
            }
        }
        count
    }

    /// Gives the document with the id the payload `q`, marked not yet written;
    /// false where no document has the id.
    pub fn update_id(&mut self, id: u128, q: &[u8]) -> (r: bool)
        requires
            old(self).wf(),
            !has_newline(q@),
        ensures
            final(self).wf(),
            r == has_id(old(self)@, id),
            final(self).removed() == old(self).removed(),
            final(self).issued() == old(self).issued(),
            forall|x: u128| has_id(final(self)@, x) <==> has_id(old(self)@, x),
            !r ==> final(self)@ == old(self)@,
            r ==> exists|i: int|
                0 <= i < old(self)@.len() && old(self)@[i].id == id && final(self)@ == old(
                    self,
                )@.update(i, Document { id, data: final(self)@[i].data, status: Status::NotSaved })
                    && final(self)@[i].data@ == q@,
    {
        match self.position(id) {
            Some(i) => {
                let data = copy_range(q, 0, q.len());
                assert(q@.subrange(0, q@.len() as int) =~= q@);
                let ghost prev = self@;
                self.docs.set(i, Document { id, data, status: Status::NotSaved });
                assert(self@[i as int].id == id);
                proof {
                    assert forall|a: int| 0 <= a < self@.len() implies !has_newline((#[trigger] self@[a]).data@)
                        && self.issued().contains(self@[a].id) by {
                        if a != i {
                            assert(self@[a] == prev[a]);
                        }
                    }
                    assert forall|x: u128| has_id(self@, x) <==> has_id(prev, x) by {
                        if has_id(self@, x) {
                            let a = choose|a: int| 0 <= a < self@.len() && self@[a].id == x;
                            assert(prev[a].id == x);
                        }
                        if has_id(prev, x) {
                            let a = choose|a: int| 0 <= a < prev.len() && prev[a].id == x;
                            assert(self@[a].id == x);
                        }
                    }
                }
                true
            },
            None => false,
        }
    }

    /// Removes every document whose payload is exactly `p`, remembering the
    /// ids for the log; returns how many there were.
    pub fn delete(&mut self, p: &[u8]) -> (r: usize)
        requires
            old(self).wf(),
        ensures
            final(self).wf(),
            final(self)@ == kept(old(self)@, p@),
            final(self).removed() == old(self).removed() + matching_ids(old(self)@, p@),
            final(self).issued() == old(self).issued(),
            forall|x: u128| has_id(final(self)@, x) ==> has_id(old(self)@, x),
            r == matching_ids(old(self)@, p@).len(),
            r == old(self)@.len() - final(self)@.len(),
    {
        let ghost old_docs = self@;
        let mut count: usize = 0;
        let mut i: usize = 0;
        let ghost mut j: int = 0;
        proof {
            lemma_kept_len(old_docs.take(0), p@);
            assert(self.docs@.len() == self.docs.len());
        }
        while i < self.docs.len()
            invariant
                i <= j <= old_docs.len(),
                old_docs == old(self)@,
                old_docs.len() <= usize::MAX,
                ids_unique(old_docs),
                self@.len() == i + (old_docs.len() - j),
                self@.subrange(0, i as int) == kept(old_docs.take(j), p@),
                self@.subrange(i as int, self@.len() as int) == old_docs.subrange(j, old_docs.len() as int),
                self.removed() == old(self).removed() + matching_ids(old_docs.take(j), p@),
                self.issued() == old(self).issued(),
                count == j - i,
                count == matching_ids(old_docs.take(j), p@).len(),
            decreases self@.len() - i,
        {
            assert(old_docs.take(j + 1).drop_last() =~= old_docs.take(j));
            assert(self@[i as int] == old_docs[j]) by {
                assert(self@.subrange(i as int, self@.len() as int)[0] == self@[i as int]);
            }
            if bytes_eq(&self.docs[i].data, p) {
                let ghost prev = self@;
                let d = self.docs.remove(i);
                self.removed.push(d.id);
                count = count + 1;
                proof {
                    assert(self@.subrange(0, i as int) =~= prev.subrange(0, i as int));
                    assert forall|k: int| 0 <= k < self@.len() - i implies self@.subrange(i as int, self@.len() as int)[k] == old_docs.subrange(j + 1, old_docs.len() as int)[k] by {
                        assert(prev.subrange(i as int, prev.len() as int)[k + 1] == old_docs.subrange(j, old_docs.len() as int)[k + 1]);
                    }
                    j = j + 1;
                }
                assert(self@.subrange(i as int, self@.len() as int) =~= old_docs.subrange(j, old_docs.len() as int));
            } else {
                proof {
                    assert forall|k: int| 0 <= k < self@.len() - i - 1 implies #[trigger] self@.subrange(i + 1, self@.len() as int)[k] == old_docs.subrange(j + 1, old_docs.len() as int)[k] by {
                        assert(self@.subrange(i as int, self@.len() as int)[k + 1] == old_docs.subrange(j, old_docs.len() as int)[k + 1]);
                    }
                }
                i = i + 1;
                proof {
                    j = j + 1;
                }
                assert(self@.subrange(i as int, self@.len() as int) =~= old_docs.subrange(j, old_docs.len() as int));
            }
        }
        assert(old_docs.take(j) =~= old_docs);
        assert(self@ =~= self@.subrange(0, i as int));
        proof {
            lemma_kept_unique(old_docs, p@);
            assert forall|a: int| 0 <= a < self@.len() implies !has_newline((#[trigger] self@[a]).data@)
                && self.issued().contains(self@[a].id) by {
                let k = choose|k: int| 0 <= k < old_docs.len() && old_docs[k] == kept(old_docs, p@)[a];
            }
            assert forall|x: u128| has_id(self@, x) implies has_id(old_docs, x) by {
                let a = choose|a: int| 0 <= a < self@.len() && self@[a].id == x;
                let k = choose|k: int| 0 <= k < old_docs.len() && old_docs[k] == kept(old_docs, p@)[a];
            }
        }
        count
    }

    /// Removes the document with the id, remembering the id for the log;
    /// false where no document has it.
    pub fn delete_id(&mut self, id: u128) -> (r: bool)
        requires
            old(self).wf(),
        ensures
            final(self).wf(),
            r == has_id(old(self)@, id),
            !r ==> final(self)@ == old(self)@ && final(self).removed() == old(self).removed(),
            r ==> final(self).removed() == old(self).removed().push(id),
            r ==> exists|i: int|
                0 <= i < old(self)@.len() && old(self)@[i].id == id && final(self)@ == old(
                    self,
                )@.remove(i),
            !has_id(final(self)@, id),
            final(self).issued() == old(self).issued(),
            forall|x: u128| has_id(final(self)@, x) ==> has_id(old(self)@, x),
    {
        match self.position(id) {
            Some(i) => {
                let ghost prev = self@;
                let d = self.docs.remove(i);
                self.removed.push(d.id);
                proof {
                    assert forall|a: int, b: int|
                        0 <= a < self@.len() && 0 <= b < self@.len() && a != b implies self@[a].id
                        != self@[b].id by {
                        let a2 = if a < i { a } else { a + 1 };
                        let b2 = if b < i { b } else { b + 1 };
                        assert(self@[a] == prev[a2]);
                        assert(self@[b] == prev[b2]);
                    }
                    assert forall|k: int| 0 <= k < self@.len() implies self@[k].id != id
                        && has_id(prev, self@[k].id) by {
                        let k2 = if k < i { k } else { k + 1 };
                        assert(self@[k] == prev[k2]);
                    }
                }
                true
            },
            None => false,
        }
    }

    /// The log records that bring the log up to date with the index.
    pub fn pending_log(&self) -> (r: Vec<u8>)
        requires
            self.wf(),
        ensures
            r@ == log_bytes(self.pending_entries()),
            entries_ok(self.pending_entries()),
    {
        proof {
            lemma_dirty_entries_ok(self@);
            let pe = self.pending_entries();
            let re = removal_entries(self.removed());
            assert forall|i: int| 0 <= i < pe.len() implies #[trigger] entry_ok(pe[i]) by {
                if i < re.len() {
                    assert(pe[i] == re[i]);
                } else {
                    assert(pe[i] == dirty_entries(self@)[i - re.len()]);
                }
            }
        }
        let mut out: Vec<u8> = Vec::new();
        let ghost mut es: Seq<Entry> = Seq::empty();
        let mut i: usize = 0;
        while i < self.removed.len()
            invariant
                i <= self.removed().len(),
                es == removal_entries(self.removed().take(i as int)),
                out@ == log_bytes(es),
            decreases self.removed().len() - i,
        {
            write_removal(&mut out, self.removed[i]);
            proof {
                let e: Entry = (self.removed()[i as int], None);
                assert(es.push(e).drop_last() =~= es);
                es = es.push(e);
                assert(es =~= removal_entries(self.removed().take(i + 1)));
            }
            i = i + 1;
        }
        assert(self.removed().take(i as int) =~= self.removed());
        let ghost front = es;
        let mut k: usize = 0;
        assert(es =~= front + dirty_entries(self@.take(0)));
        while k < self.docs.len()
            invariant
                k <= self@.len(),
                front == removal_entries(self.removed()),
                es == front + dirty_entries(self@.take(k as int)),
                out@ == log_bytes(es),
            decreases self@.len() - k,
        {
            assert(self@.take(k + 1).drop_last() =~= self@.take(k as int));
            if self.docs[k].status == Status::NotSaved {
                write_put(&mut out, self.docs[k].id, &self.docs[k].data);
                proof {
                    let e: Entry = (self@[k as int].id, Some(self@[k as int].data@));
                    assert(es.push(e).drop_last() =~= es);
                    es = es.push(e);
                }
            }
            k = k + 1;
            assert(es =~= front + dirty_entries(self@.take(k as int)));
        }
        assert(self@.take(k as int) =~= self@);
        out
    }

    /// Records that the log now holds every change: all documents are saved
    /// and no deletion is pending.
    pub fn mark_saved(&mut self)
        requires
            old(self).wf(),
        ensures
            final(self).wf(),
            final(self)@.len() == old(self)@.len(),
            forall|i: int|
                0 <= i < old(self)@.len() ==> (#[trigger] final(self)@[i]).id == old(self)@[i].id
                    && final(self)@[i].data == old(self)@[i].data && final(self)@[i].status
                    == Status::Saved,
            final(self).removed() == Seq::<u128>::empty(),
            final(self).issued() == old(self).issued(),
            final(self).pending_entries() == Seq::<Entry>::empty(),
    {
        let ghost old_docs = self@;
        let mut i: usize = 0;
        while i < self.docs.len()
            invariant
                i <= self@.len(),
                self@.len() == old_docs.len(),
                self.issued() == old(self).issued(),
                old_docs == old(self)@,
                forall|j: int|
                    0 <= j < old_docs.len() ==> (#[trigger] self@[j]).id == old_docs[j].id
                        && self@[j].data == old_docs[j].data,
                forall|j: int| 0 <= j < i ==> (#[trigger] self@[j]).status == Status::Saved,
            decreases self@.len() - i,
        {
            self.docs[i].status = Status::Saved;
            i = i + 1;
        }
        self.removed.clear();
        proof {
            assert forall|a: int, b: int|
                0 <= a < self@.len() && 0 <= b < self@.len() && a != b implies self@[a].id
                != self@[b].id by {
                assert(self@[a].id == old_docs[a].id);
                assert(self@[b].id == old_docs[b].id);
            }
            assert forall|a: int| 0 <= a < self@.len() implies !has_newline((#[trigger] self@[a]).data@)
                && self.issued().contains(self@[a].id) by {
                assert(self@[a].id == old_docs[a].id && self@[a].data == old_docs[a].data);
            }
            lemma_saved_not_dirty(self@);
            assert(removal_entries(self.removed()) =~= Seq::<Entry>::empty());
            assert(self.pending_entries() =~= Seq::<Entry>::empty());
        }
    }
}

/// The records of newline-free payloads can be written as lines.
proof fn lemma_dirty_entries_ok(s: Seq<Document>)
    requires
        payloads_ok(s),
    ensures
        entries_ok(dirty_entries(s)),
    decreases s.len(),
{
    if s.len() > 0 {
        let t = s.drop_last();
        assert forall|i: int| 0 <= i < t.len() implies !has_newline((#[trigger] t[i]).data@) by {
            assert(t[i] == s[i]);
        }
        lemma_dirty_entries_ok(t);
        assert(!has_newline(s[s.len() - 1].data@));
        let d = dirty_entries(s);
        assert forall|i: int| 0 <= i < d.len() implies #[trigger] entry_ok(d[i]) by {
            if i < dirty_entries(t).len() {
                assert(d[i] == dirty_entries(t)[i]);
            }
        }
    }
}

/// A sequence of saved documents has nothing to write.
proof fn lemma_saved_not_dirty(s: Seq<Document>)
    requires
        forall|j: int| 0 <= j < s.len() ==> (#[trigger] s[j]).status == Status::Saved,
    ensures
        dirty_entries(s) == Seq::<Entry>::empty(),
    decreases s.len(),
{
    if s.len() > 0 {
        lemma_saved_not_dirty(s.drop_last());
    }
}

/// What `kept` leaves is no longer than what it was given.
proof fn lemma_kept_len(s: Seq<Document>, p: Seq<u8>)
    ensures
        kept(s, p).len() <= s.len(),
    decreases s.len(),
{
    if s.len() > 0 {
        lemma_kept_len(s.drop_last(), p);
    }
}

/// What `kept` leaves was in the sequence, and keeps ids unique.
proof fn lemma_kept_unique(s: Seq<Document>, p: Seq<u8>)
    requires
        ids_unique(s),
    ensures
        ids_unique(kept(s, p)),
        forall|i: int|
            0 <= i < kept(s, p).len() ==> exists|k: int| 0 <= k < s.len() && s[k] == #[trigger] kept(s, p)[i],
    decreases s.len(),
{
    if s.len() > 0 {
        let t = s.drop_last();
        assert(ids_unique(t));
        lemma_kept_unique(t, p);
        assert forall|i: int| 0 <= i < kept(t, p).len() implies kept(t, p)[i].id != s.last().id by {
            let k = choose|k: int| 0 <= k < t.len() && t[k] == kept(t, p)[i];
            assert(s[k] == t[k]);
        }
        let kk = kept(s, p);
        assert forall|i: int| 0 <= i < kk.len() implies exists|k: int| 0 <= k < s.len() && s[k] == #[trigger] kk[i] by {
            if i < kept(t, p).len() {
                let k = choose|k: int| 0 <= k < t.len() && t[k] == kept(t, p)[i];
                assert(s[k] == t[k]);
            } else {
                assert(s[s.len() - 1] == kk[i]);
            }
        }
    }
}

} // verus!
