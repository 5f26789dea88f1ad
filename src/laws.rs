//! Properties of the store stated over its models.
use vstd::prelude::*;
use crate::RedDb;
use crate::document::Status;
use crate::record::{Entry, entries_ok, entry_ok, log_bytes, replay_map};
use crate::store::{Store, ids_unique, kept, matching_ids, rewritten, dirty_entries, removal_entries};

verus! {

/// No two documents of a store share an id, whatever operations built it.
pub proof fn law_ids_distinct(db: RedDb)
    requires
        db.wf(),
    ensures
        forall|i: int, j: int| 0 <= i < db@.len() && 0 <= j < db@.len() && i != j ==> db@[i].id != db@[j].id,
{
}

/// After deleting by a pattern nothing matches it any more: deleting again
/// removes nothing.
pub proof fn law_delete_repeat(s: Seq<crate::Document>, p: Seq<u8>)
    ensures
        matching_ids(kept(s, p), p) == Seq::<u128>::empty(),
    decreases s.len(),
{
    if s.len() > 0 {
        law_delete_repeat(s.drop_last(), p);
        let k = kept(s.drop_last(), p);
        if s.last().data@ != p {
            assert(kept(s, p).drop_last() =~= k);
        }
    }
}

/// Updating by a pattern `p` to a different payload `q` moves every match of
/// `p` to `q`: none of `p` is left, and `q` gains them all.
pub proof fn law_update_moves_matches(s: Seq<crate::Document>, t: Seq<crate::Document>, p: Seq<u8>, q: Seq<u8>)
    requires
        p != q,
        t.len() == s.len(),
        forall|i: int| 0 <= i < s.len() ==> rewritten(s[i], #[trigger] t[i], p, q),
    ensures
        matching_ids(t, p).len() == 0,
        matching_ids(t, q).len() == matching_ids(s, p).len() + matching_ids(s, q).len(),
    decreases s.len(),
{
    if s.len() > 0 {
        let s2 = s.drop_last();
        let t2 = t.drop_last();
        assert forall|i: int| 0 <= i < s2.len() implies rewritten(s2[i], #[trigger] t2[i], p, q) by {
            assert(rewritten(s[i], t[i], p, q));
        }
        law_update_moves_matches(s2, t2, p, q);
        assert(rewritten(s[s.len() - 1], t[t.len() - 1], p, q));
    }
}

/// Replay keeps, for each id, what its last record says: the payload of the
/// last record that stores one, or nothing where the last record deletes it.
pub proof fn law_replay_last_write_wins(es: Seq<Entry>, i: int)
    requires
        0 <= i < es.len(),
        forall|j: int| i < j < es.len() ==> (#[trigger] es[j]).0 != es[i].0,
    ensures
        es[i].1 is Some ==> replay_map(es).contains_key(es[i].0) && replay_map(es)[es[i].0]
            == es[i].1->0,
        es[i].1 is None ==> !replay_map(es).contains_key(es[i].0),
    decreases es.len(),
{
    if i < es.len() - 1 {
        let t = es.drop_last();
        assert forall|j: int| i < j < t.len() implies (#[trigger] t[j]).0 != t[i].0 by {
            assert(t[j] == es[j]);
        }
        law_replay_last_write_wins(t, i);
        assert(es[es.len() - 1].0 != es[i].0);
    }
}

/// A record for an id that nothing after it mentions decides the id.
proof fn lemma_last_put_in_suffix(front: Seq<Entry>, back: Seq<Entry>, j: int)
    requires
        0 <= j < back.len(),
        forall|k: int| j < k < back.len() ==> (#[trigger] back[k]).0 != back[j].0,
    ensures
        back[j].1 is Some ==> replay_map(front + back)[back[j].0] == back[j].1->0
            && replay_map(front + back).contains_key(back[j].0),
{
    let es = front + back;
    assert forall|k: int| front.len() + j < k < es.len() implies (#[trigger] es[k]).0 != es[front.len() + j].0 by {
        assert(es[k] == back[k - front.len()]);
    }
    law_replay_last_write_wins(es, front.len() + j);
}

/// Where a document's record stands among the records of the documents not
/// yet written, and that no later one names its id.
proof fn lemma_dirty_entry(s: Seq<crate::Document>, i: int) -> (j: int)
    requires
        ids_unique(s),
        0 <= i < s.len(),
        s[i].status == Status::NotSaved,
    ensures
        0 <= j < dirty_entries(s).len(),
        dirty_entries(s)[j] == (s[i].id, Some(s[i].data@)),
        forall|k: int| j < k < dirty_entries(s).len() ==> (#[trigger] dirty_entries(s)[k]).0 != s[i].id,
    decreases s.len(),
{
    lemma_dirty_ids(s);
    let t = s.drop_last();
    if i == s.len() - 1 {
        (dirty_entries(s).len() - 1) as int
    } else {
        assert(ids_unique(t));
        let j = lemma_dirty_entry(t, i);
        assert(s[s.len() - 1].id != s[i].id);
        j
    }
}

/// The records of the documents not yet written name documents of `s`.
proof fn lemma_dirty_ids(s: Seq<crate::Document>)
    ensures
        forall|k: int| 0 <= k < dirty_entries(s).len() ==> exists|m: int| 0 <= m < s.len() && s[m].id == (#[trigger] dirty_entries(s)[k]).0,
    decreases s.len(),
{
    if s.len() > 0 {
        let t = s.drop_last();
        lemma_dirty_ids(t);
        assert forall|k: int| 0 <= k < dirty_entries(s).len() implies exists|m: int| 0 <= m < s.len() && s[m].id == (#[trigger] dirty_entries(s)[k]).0 by {
            if k < dirty_entries(t).len() {
                let m = choose|m: int| 0 <= m < t.len() && t[m].id == dirty_entries(t)[k].0;
                assert(s[m] == t[m]);
            } else {
                assert(s[s.len() - 1].id == dirty_entries(s)[k].0);
            }
        }
    }
}

/// Writing a store's pending records after any log, then replaying that log,
/// gives back every document that was not yet written, with its payload.
pub proof fn law_persisted_documents_replay(before: Seq<Entry>, st: Store, i: int)
    requires
        st.wf(),
        0 <= i < st@.len(),
        st@[i].status == Status::NotSaved,
    ensures
        replay_map(before + st.pending_entries()).contains_key(st@[i].id),
        replay_map(before + st.pending_entries())[st@[i].id] == st@[i].data@,
{
    let s = st@;
    let rem = removal_entries(st.removed());
    let d = dirty_entries(s);
    let j = lemma_dirty_entry(s, i);
    assert(before + st.pending_entries() =~= (before + rem) + d);
    lemma_last_put_in_suffix(before + rem, d, j);
}

/// Appending the records of a batch to a log gives the log of all records in
/// order, and it stays well-formed: what `persist_log` hands out, appended to
/// a log that opens, gives a log that opens.
pub proof fn law_log_append(before: Seq<Entry>, batch: Seq<Entry>)
    requires
        entries_ok(before),
        entries_ok(batch),
    ensures
        log_bytes(before + batch) == log_bytes(before) + log_bytes(batch),
        entries_ok(before + batch),
    decreases batch.len(),
{
    let all = before + batch;
    assert forall|i: int| 0 <= i < all.len() implies #[trigger] entry_ok(all[i]) by {
        if i < before.len() {
            assert(all[i] == before[i]);
        } else {
            assert(all[i] == batch[i - before.len()]);
        }
    }
    if batch.len() == 0 {
        assert(all =~= before);
        assert(log_bytes(before) + log_bytes(batch) =~= log_bytes(before));
    } else {
        let t = batch.drop_last();
        assert forall|i: int| 0 <= i < t.len() implies #[trigger] entry_ok(t[i]) by {
            assert(t[i] == batch[i]);
        }
        law_log_append(before, t);
        assert(all.drop_last() =~= before + t);
        assert(all.last() == batch.last());
        assert(log_bytes(all) =~= log_bytes(before) + log_bytes(batch));
    }
}

} // verus!
