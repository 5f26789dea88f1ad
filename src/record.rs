//! The log record format. Each record is one line:
//! `{"_id":"<id text>","data":<payload>}` stores a payload under an id, and
//! `{"_id":"<id text>"}` marks the id as deleted. Payloads hold no newline byte.
use vstd::prelude::*;
use crate::ident::{canonical_text, uuid_text, lemma_uuid_text_bytes, id_text, is_canonical_text, parse_id};

verus! {

/// One record: an id, and the payload stored under it (`None` for a deletion).
pub type Entry = (u128, Option<Seq<u8>>);

/// `{"_id":"`
pub open spec fn head() -> Seq<u8> {
    seq![123u8, 34u8, 95u8, 105u8, 100u8, 34u8, 58u8, 34u8]
}

/// `","data":`
pub open spec fn data_sep() -> Seq<u8> {
    seq![34u8, 44u8, 34u8, 100u8, 97u8, 116u8, 97u8, 34u8, 58u8]
}

/// `"}`
pub open spec fn removal_tail() -> Seq<u8> {
    seq![34u8, 125u8]
}

pub open spec fn has_newline(p: Seq<u8>) -> bool {
    exists|i: int| 0 <= i < p.len() && p[i] == 10u8
}

/// A record that can be written as one line.
pub open spec fn entry_ok(e: Entry) -> bool {
    match e.1 {
        Some(p) => !has_newline(p),
        None => true,
    }
}

pub open spec fn entries_ok(es: Seq<Entry>) -> bool {
    forall|i: int| 0 <= i < es.len() ==> #[trigger] entry_ok(es[i])
}

/// The text of a record, without its newline.
pub open spec fn record_line(e: Entry) -> Seq<u8> {
    match e.1 {
        Some(p) => head() + uuid_text(e.0) + data_sep() + p + seq![125u8],
        None => head() + uuid_text(e.0) + removal_tail(),
    }
}

/// A record as written to the log.
pub open spec fn record_bytes(e: Entry) -> Seq<u8> {
    record_line(e).push(10u8)
}

/// The log holding the given records, in order.
pub open spec fn log_bytes(es: Seq<Entry>) -> Seq<u8>
    decreases es.len(),
{
    if es.len() == 0 {
        Seq::empty()
    } else {
        log_bytes(es.drop_last()) + record_bytes(es.last())
    }
}

/// The index contents after one record: the payload stored, or the id gone.
pub open spec fn apply_entry(m: Map<u128, Seq<u8>>, e: Entry) -> Map<u128, Seq<u8>> {
    match e.1 {
        Some(p) => m.insert(e.0, p),
        None => m.remove(e.0),
    }
}

/// The index contents a log describes: for each id, what its last record left.
pub open spec fn replay_map(es: Seq<Entry>) -> Map<u128, Seq<u8>>
    decreases es.len(),
{
    if es.len() == 0 {
        Map::empty()
    } else {
        apply_entry(replay_map(es.drop_last()), es.last())
    }
}

/// The log of the first `m` records is where the full log starts.
pub proof fn lemma_log_prefix(es: Seq<Entry>, m: int)
    requires
        0 <= m <= es.len(),
    ensures
        log_bytes(es.take(m)).len() <= log_bytes(es).len(),
        log_bytes(es).subrange(0, log_bytes(es.take(m)).len() as int) == log_bytes(es.take(m)),
    decreases es.len(),
{
    if m == es.len() {
        assert(es.take(m) =~= es);
        assert(log_bytes(es).subrange(0, log_bytes(es).len() as int) =~= log_bytes(es));
    } else {
        let t = es.drop_last();
        assert(t.take(m) =~= es.take(m));
        lemma_log_prefix(t, m);
        let a = log_bytes(es.take(m));
        assert(log_bytes(es).subrange(0, a.len() as int) =~= log_bytes(t).subrange(0, a.len() as int));
    }
}

/// Where record `k` stands in the log.
pub proof fn lemma_log_at(es: Seq<Entry>, k: int)
    requires
        0 <= k < es.len(),
    ensures
        log_bytes(es.take(k + 1)) == log_bytes(es.take(k)) + record_bytes(es[k]),
        log_bytes(es.take(k + 1)).len() <= log_bytes(es).len(),
        log_bytes(es).subrange(
            log_bytes(es.take(k)).len() as int,
            log_bytes(es.take(k + 1)).len() as int,
        ) == record_bytes(es[k]),
{
    assert(es.take(k + 1).drop_last() =~= es.take(k));
    lemma_log_prefix(es, k + 1);
    let a = log_bytes(es.take(k)).len() as int;
    let b = log_bytes(es.take(k + 1)).len() as int;
    assert(log_bytes(es).subrange(a, b) =~= log_bytes(es).subrange(0, b).subrange(a, b));
    assert(log_bytes(es.take(k + 1)).subrange(a, b) =~= record_bytes(es[k]));
}

/// A record's line holds no newline.
pub proof fn lemma_line_no_newline(e: Entry)
    requires
        entry_ok(e),
    ensures
        forall|i: int| 0 <= i < record_line(e).len() ==> record_line(e)[i] != 10u8,
{
    lemma_uuid_text_bytes(e.0);
    let l = record_line(e);
    assert forall|i: int| 0 <= i < l.len() implies l[i] != 10u8 by {
        if 8 <= i < 44 {
            assert(l[i] == uuid_text(e.0)[i - 8]);
        }
        match e.1 {
            Some(p) => {
                if 53 <= i < 53 + p.len() {
                    assert(l[i] == p[i - 53]);
                }
            },
            None => {},
        }
    }
}

/// `log[a..b]` is a whole line: it starts the log or follows a newline, and
/// a newline ends it.
pub open spec fn is_line(log: Seq<u8>, a: int, b: int) -> bool {
    &&& 0 <= a <= b < log.len()
    &&& (a == 0 || log[a - 1] == 10u8)
    &&& log[b] == 10u8
    &&& forall|i: int| a <= i < b ==> log[i] != 10u8
}

/// Whether `line` has the outer shape of a record, whatever its id text.
pub open spec fn line_shape(line: Seq<u8>) -> bool {
    &&& line.len() >= 46
    &&& line.subrange(0, 8) == head()
    &&& if line.len() == 46 {
        line.subrange(44, 46) == removal_tail()
    } else {
        &&& line.len() >= 54
        &&& line.subrange(44, 53) == data_sep()
        &&& line[line.len() - 1] == 125u8
    }
}

/// Whether `a[from..]` starts with `b`.
fn starts_with_at(a: &[u8], from: usize, b: &[u8]) -> (r: bool)
    requires
        from <= a@.len(),
    ensures
        r == (from + b@.len() <= a@.len() && a@.subrange(from as int, from + b@.len()) == b@),
{
    if b.len() > a.len() - from {
        return false;
    }
    let mut i: usize = 0;
    while i < b.len()
        invariant
            from + b@.len() <= a@.len(),
            a@.len() <= usize::MAX,
            i <= b@.len(),
            forall|j: int| 0 <= j < i ==> a@[from + j] == b@[j],
        decreases b@.len() - i,
    {
        if a[from + i] != b[i] {
            assert(a@.subrange(from as int, from + b@.len())[i as int] != b@[i as int]);
            return false;
        }
        i = i + 1;
    }
    assert(a@.subrange(from as int, from + b@.len()) =~= b@);
    true
}

/// Where the line that starts at `from` ends: the first newline at or after
/// `from`, or the end of `a`.
pub fn next_newline(a: &[u8], from: usize) -> (r: usize)
    requires
        from <= a@.len(),
    ensures
        from <= r <= a@.len(),
        forall|i: int| from <= i < r ==> a@[i] != 10u8,
        r < a@.len() ==> a@[r as int] == 10u8,
{
    let mut i: usize = from;
    while i < a.len()
        invariant
            from <= i <= a@.len(),
            forall|j: int| from <= j < i ==> a@[j] != 10u8,
        decreases a@.len() - i,
    {
        if a[i] == 10u8 {
            return i;
        }
        i = i + 1;
    }
    i
}

/// Whether two byte strings are equal.
pub fn bytes_eq(a: &[u8], b: &[u8]) -> (r: bool)
    ensures
        r == (a@ == b@),
{
    if a.len() != b.len() {
        return false;
    }
    let r = starts_with_at(a, 0, b);
    assert(a@ =~= a@.subrange(0, b@.len() as int));
    r
}

/// A copy of `a[from..to]`.
pub fn copy_range(a: &[u8], from: usize, to: usize) -> (r: Vec<u8>)
    requires
        from <= to <= a@.len(),
    ensures
        r@ == a@.subrange(from as int, to as int),
{
    let mut r: Vec<u8> = Vec::new();
    let mut i: usize = from;
    while i < to
        invariant
            from <= i <= to <= a@.len(),
            r@ == a@.subrange(from as int, i as int),
        decreases to - i,
    {
        r.push(a[i]);
        i = i + 1;
        assert(r@ =~= a@.subrange(from as int, i as int));
    }
    r
}

/// Appends `b` to `out`.
pub fn append_bytes(out: &mut Vec<u8>, b: &[u8])
    ensures
        final(out)@ == old(out)@ + b@,
{
    let mut i: usize = 0;
    while i < b.len()
        invariant
            i <= b@.len(),
            out@ == old(out)@ + b@.subrange(0, i as int),
        decreases b@.len() - i,
    {
        out.push(b[i]);
        i = i + 1;
        assert(out@ =~= old(out)@ + b@.subrange(0, i as int));
    }
    assert(b@.subrange(0, b@.len() as int) =~= b@);
}

/// Whether `p` holds a newline byte.
pub fn contains_newline(p: &[u8]) -> (r: bool)
    ensures
        r == has_newline(p@),
{
    let mut i: usize = 0;
    while i < p.len()
        invariant
            i <= p@.len(),
            forall|j: int| 0 <= j < i ==> p@[j] != 10u8,
        decreases p@.len() - i,
    {
        if p[i] == 10u8 {
            return true;
        }
        i = i + 1;
    }
    false
}

/// Appends the record storing `data` under `id` to `out`.
pub fn write_put(out: &mut Vec<u8>, id: u128, data: &[u8])
    ensures
        final(out)@ == old(out)@ + record_bytes((id, Some(data@))),
{
    let text = id_text(id);
    let h: [u8; 8] = [123u8, 34u8, 95u8, 105u8, 100u8, 34u8, 58u8, 34u8];
    let sep: [u8; 9] = [34u8, 44u8, 34u8, 100u8, 97u8, 116u8, 97u8, 34u8, 58u8];
    let tail: [u8; 2] = [125u8, 10u8];
    append_bytes(out, &h);
    append_bytes(out, &text);
    append_bytes(out, &sep);
    append_bytes(out, data);
    append_bytes(out, &tail);
    assert(h@ =~= head());
    assert(sep@ =~= data_sep());
    assert(final(out)@ =~= old(out)@ + record_bytes((id, Some(data@))));
}

/// Appends the record marking `id` as deleted to `out`.
pub fn write_removal(out: &mut Vec<u8>, id: u128)
    ensures
        final(out)@ == old(out)@ + record_bytes((id, None)),
{
    let text = id_text(id);
    let h: [u8; 8] = [123u8, 34u8, 95u8, 105u8, 100u8, 34u8, 58u8, 34u8];
    let tail: [u8; 3] = [34u8, 125u8, 10u8];
    append_bytes(out, &h);
    append_bytes(out, &text);
    append_bytes(out, &tail);
    assert(h@ =~= head());
    assert(final(out)@ =~= old(out)@ + record_bytes((id, None)));
}

/// The payload a decoded record carries, as bytes.
pub open spec fn payload_view(d: Option<Vec<u8>>) -> Option<Seq<u8>> {
    match d {
        Some(v) => Some(v@),
        None => None,
    }
}

/// The parts of a record's line: its head, id text, and what follows.
pub proof fn lemma_record_line_parts(e: Entry)
    ensures
        line_shape(record_line(e)),
        record_line(e).subrange(8, 44) == uuid_text(e.0),
        e.1 is None ==> record_line(e).len() == 46,
        e.1 is Some ==> record_line(e).len() == 54 + e.1->0.len() && record_line(e).subrange(
            53,
            record_line(e).len() - 1,
        ) == e.1->0,
{
    lemma_uuid_text_bytes(e.0);
    let l = record_line(e);
    let t = uuid_text(e.0);
    match e.1 {
        Some(p) => {
            assert(l.subrange(0, 8) =~= head());
            assert(l.subrange(8, 44) =~= t);
            assert(l.subrange(44, 53) =~= data_sep());
            assert(l.subrange(53, l.len() - 1) =~= p);
        },
        None => {
            assert(l.subrange(0, 8) =~= head());
            assert(l.subrange(8, 44) =~= t);
            assert(l.subrange(44, 46) =~= removal_tail());
        },
    }
}

/// Reads one line of the log (without its newline). `None` where the line is
/// not a record.
pub fn decode_line(line: &[u8]) -> (r: Option<(u128, Option<Vec<u8>>)>)
    ensures
        !line_shape(line@) ==> r is None,
        match r {
            Some((_, d)) => {
                &&& line_shape(line@)
                &&& (d is None <==> line@.len() == 46)
                &&& (d is Some ==> d->0@ == line@.subrange(53, line@.len() - 1))
            },
            None => true,
        },
        forall|x: u128|
            line_shape(line@) && #[trigger] uuid_text(x) == line@.subrange(8, 44) ==> (
            r matches Some((id, _)) && id == x),
        r matches Some((id, d)) ==> line@ == record_line((id, payload_view(d))),
{
    if line.len() < 46 {
        return None;
    }
    let h: [u8; 8] = [123u8, 34u8, 95u8, 105u8, 100u8, 34u8, 58u8, 34u8];
    assert(h@ =~= head());
    if !starts_with_at(line, 0, &h) {
        return None;
    }
    let text = copy_range(line, 8, 44);
    proof {
        assert forall|x: u128| #[trigger] uuid_text(x) == text@ implies canonical_text(text@) by {
            lemma_uuid_text_bytes(x);
        }
    }
    if !is_canonical_text(&text) {
        return None;
    }
    let id = match parse_id(&text) {
        Ok(v) => v,
        Err(_) => {
            return None;
        },
    };
    if line.len() == 46 {
        let t: [u8; 2] = [34u8, 125u8];
        assert(t@ =~= removal_tail());
        if starts_with_at(line, 44, &t) {
            assert(line@ =~= record_line((id, None)));
            Some((id, None))
        } else {
            None
        }
    } else {
        if line.len() < 54 {
            return None;
        }
        let sep: [u8; 9] = [34u8, 44u8, 34u8, 100u8, 97u8, 116u8, 97u8, 34u8, 58u8];
        assert(sep@ =~= data_sep());
        if !starts_with_at(line, 44, &sep) {
            return None;
        }
        if line[line.len() - 1] != 125u8 {
            return None;
        }
        let d = copy_range(line, 53, line.len() - 1);
        proof {
            let l = line@;
            let rl = record_line((id, Some(d@)));
            assert(rl.len() == l.len());
            assert forall|i: int| 0 <= i < l.len() implies l[i] == rl[i] by {
                if i < 8 {
                    assert(l.subrange(0, 8)[i] == l[i]);
                } else if i < 44 {
                    assert(text@[i - 8] == l[i]);
                } else if i < 53 {
                    assert(l.subrange(44, 53)[i - 44] == l[i]);
                } else if i < l.len() - 1 {
                    assert(d@[i - 53] == l[i]);
                }
            }
            assert(l =~= rl);
        }
        Some((id, Some(d)))
    }
}

} // verus!
