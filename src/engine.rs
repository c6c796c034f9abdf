//! The storage engine: a log-structured map from byte keys to byte values.
//!
//! Every write is first appended to the write-ahead log as one transaction,
//! then applied to the in-memory write buffer, which keeps one record per
//! key in key order. When the buffer grows past a limit it becomes an
//! immutable sorted segment and the log starts afresh, so the log always
//! holds what the buffer holds. Reads look at the buffer first, then at the
//! segments from newest to oldest; the newest record of a key wins, and a
//! tombstone hides every older value.

use vstd::prelude::*;
use crate::codec::opt_bytes;
use crate::segment::{build_sorted, find_sorted, is_sorted, sorted, upsert_sorted};
use crate::wal::{
    concat, encode_frame, frame_bytes, frames_view, log_bytes, parse_log, parse_log_exec,
    lemma_concat_push, lemma_log_bytes_push, lemma_batch_atomic, frames_fit, frame_fits,
};

verus! {

/// Number of records the write buffer holds before it is flushed to a segment.
pub const BUFFER_LIMIT: usize = 1024;

/// Number of segments at which a flush also compacts them into one.
pub const COMPACT_AT: usize = 8;

#[derive(Debug, Clone, Copy, PartialEq, Eq, Structural)]
pub enum StorageError {
    /// A file of the store could not be opened, read or written.
    IOFailure,
    /// The write-ahead log or a segment holds bytes that cannot be read back.
    CorruptLog,
    /// The key is empty.
    InvalidKey,
}

/// A put (`value` is `Some`) or a tombstone (`value` is `None`) for one key.
#[derive(Debug)]
pub struct Record {
    pub key: Vec<u8>,
    pub value: Option<Vec<u8>>,
}

/// An owned copy of a byte string.
pub fn copy_bytes(b: &[u8]) -> (r: Vec<u8>)
    ensures
        r@ == b@,
{
    vstd::slice::slice_to_vec(b)
}

/// A record as a key and, for a put, its value.
pub type Entry = (Seq<u8>, Option<Seq<u8>>);

impl View for Record {
    type V = Entry;

    open spec fn view(&self) -> Entry {
        (self.key@, opt_bytes(self.value))
    }
}

pub open spec fn entries(recs: Seq<Record>) -> Seq<Entry> {
    recs.map_values(|r: Record| r@)
}

impl Record {
    pub fn put(key: &[u8], value: &[u8]) -> (r: Record)
        ensures
            r.key@ == key@,
            opt_bytes(r.value) == Some(value@),
    {
        Record { key: copy_bytes(key), value: Some(copy_bytes(value)) }
    }

    pub fn tombstone(key: &[u8]) -> (r: Record)
        ensures
            r.key@ == key@,
            r.value is None,
    {
        Record { key: copy_bytes(key), value: None }
    }

    pub fn duplicate(&self) -> (r: Record)
        ensures
            r.key@ == self.key@,
            opt_bytes(r.value) == opt_bytes(self.value),
    {
        let value = match &self.value {
            Some(v) => Some(copy_bytes(v.as_slice())),
            None => None,
        };
        Record { key: copy_bytes(self.key.as_slice()), value }
    }
}

/// The newest record of `k` in `recs` (the last one): `Some(Some(v))` for a
/// put, `Some(None)` for a tombstone, `None` where `k` has no record.
pub open spec fn latest(recs: Seq<Entry>, k: Seq<u8>) -> Option<Option<Seq<u8>>>
    decreases recs.len(),
{
    if recs.len() == 0 {
        None
    } else if recs.last().0 == k {
        Some(recs.last().1)
    } else {
        latest(recs.drop_last(), k)
    }
}

/// The map that a sequence of records, applied in order, leaves.
pub open spec fn contents(recs: Seq<Entry>) -> Map<Seq<u8>, Seq<u8>> {
    Map::new(
        |k: Seq<u8>| latest(recs, k) matches Some(Some(_)),
        |k: Seq<u8>| latest(recs, k)->Some_0->Some_0,
    )
}

/// `m` with the records of `batch` applied in order.
pub open spec fn overlay(m: Map<Seq<u8>, Seq<u8>>, batch: Seq<Entry>) -> Map<Seq<u8>, Seq<u8>> {
    Map::new(
        |k: Seq<u8>|
            match latest(batch, k) {
                Some(v) => v is Some,
                None => m.contains_key(k),
            },
        |k: Seq<u8>|
            match latest(batch, k) {
                Some(v) => v->Some_0,
                None => m[k],
            },
    )
}

/// All records of a list of segments, oldest first.
pub open spec fn flatten(segs: Seq<Vec<Record>>) -> Seq<Entry>
    decreases segs.len(),
{
    if segs.len() == 0 {
        Seq::empty()
    } else {
        flatten(segs.drop_last()) + entries(segs.last()@)
    }
}

/// The newest record of a key in `a + b` is its newest in `b`, else in `a`.
pub proof fn lemma_latest_append(a: Seq<Entry>, b: Seq<Entry>, k: Seq<u8>)
    ensures
        latest(a + b, k) == (if latest(b, k) is Some { latest(b, k) } else { latest(a, k) }),
    decreases b.len(),
{
    if b.len() == 0 {
        assert(a + b =~= a);
    } else {
        assert((a + b).drop_last() =~= a + b.drop_last());
        assert((a + b).last() == b.last());
        lemma_latest_append(a, b.drop_last(), k);
    }
}

/// Applying records after `a` is overlaying them on what `a` leaves.
pub proof fn lemma_contents_append(a: Seq<Entry>, b: Seq<Entry>)
    ensures
        contents(a + b) == overlay(contents(a), b),
{
    assert forall|k: Seq<u8>| #[trigger] latest(a + b, k) == (if latest(b, k) is Some {
        latest(b, k)
    } else {
        latest(a, k)
    }) by {
        lemma_latest_append(a, b, k);
    }
    assert(contents(a + b) =~= overlay(contents(a), b));
}

pub proof fn lemma_flatten_push(segs: Seq<Vec<Record>>, s: Vec<Record>)
    ensures
        flatten(segs.push(s)) == flatten(segs) + entries(s@),
{
    assert(segs.push(s).drop_last() =~= segs);
}

/// Byte-wise equality of two byte strings.
pub fn bytes_eq(a: &[u8], b: &[u8]) -> (r: bool)
    ensures
        r == (a@ == b@),
{
    if a.len() != b.len() {
        return false;
    }
    let mut i: usize = 0;
    while i < a.len()
        invariant
            a@.len() == b@.len(),
            i <= a@.len(),
            forall|j: int| 0 <= j < i ==> a@[j] == b@[j],
        decreases a.len() - i,
    {
        if a[i] != b[i] {
            return false;
        }
        i = i + 1;
    }
    assert(a@ =~= b@);
    true
}

/// `m` after one put.
pub proof fn lemma_overlay_put(m: Map<Seq<u8>, Seq<u8>>, k: Seq<u8>, v: Seq<u8>)
    ensures
        overlay(m, seq![(k, Some(v))]) == m.insert(k, v),
{
    let b = seq![(k, Some(v))];
    assert(b.drop_last() =~= Seq::<Entry>::empty());
    assert(b.last() == (k, Some(v)));
    assert forall|k2: Seq<u8>| #[trigger] latest(b, k2) == (if k2 == k { Some(Some(v)) } else { None }) by {
        assert(latest(b.drop_last(), k2) is None);
    }
    assert(overlay(m, b) =~= m.insert(k, v));
}

/// `m` after one tombstone.
pub proof fn lemma_overlay_tombstone(m: Map<Seq<u8>, Seq<u8>>, k: Seq<u8>)
    ensures
        overlay(m, seq![(k, None::<Seq<u8>>)]) == m.remove(k),
{
    let b = seq![(k, None::<Seq<u8>>)];
    assert(b.drop_last() =~= Seq::<Entry>::empty());
    assert(b.last() == (k, None::<Seq<u8>>));
    assert forall|k2: Seq<u8>| #[trigger] latest(b, k2) == (if k2 == k { Some(None::<Seq<u8>>) } else { None }) by {
        assert(latest(b.drop_last(), k2) is None);
    }
    assert(overlay(m, b) =~= m.remove(k));
}

/// What a lookup shows of a newest record: a put's value, nothing for a
/// tombstone or a missing key.
pub open spec fn visible(o: Option<Option<Seq<u8>>>) -> Option<Option<Seq<u8>>> {
    match o {
        Some(Some(v)) => Some(Some(v)),
        _ => None,
    }
}

pub open spec fn has_key(keys: Seq<Vec<u8>>, k: Seq<u8>) -> bool {
    exists|j: int| 0 <= j < keys.len() && (#[trigger] keys[j])@ == k
}

fn contains_key(keys: &Vec<Vec<u8>>, key: &[u8]) -> (r: bool)
    ensures
        r == has_key(keys@, key@),
{
    let mut j: usize = 0;
    while j < keys.len()
        invariant
            j <= keys@.len(),
            forall|i: int| 0 <= i < j ==> (#[trigger] keys@[i])@ != key@,
        decreases keys.len() - j,
    {
        if bytes_eq(keys[j].as_slice(), key) {
            return true;
        }
        j = j + 1;
    }
    false
}

/// Keeps, of all the records, the newest put of each key that a tombstone
/// does not hide: one record per key, with the same lookups as the input.
fn merge_records(flat: &Vec<Record>) -> (r: Vec<Record>)
    ensures
        forall|k: Seq<u8>| #[trigger] latest(entries(r@), k) == visible(latest(entries(flat@), k)),
{
    let mut out: Vec<Record> = Vec::new();
    let mut seen: Vec<Vec<u8>> = Vec::new();
    let mut i: usize = flat.len();
    proof {
        assert forall|k: Seq<u8>| #[trigger] latest(entries(flat@.subrange(i as int, flat@.len() as int)), k) is None by {
            assert(entries(flat@.subrange(i as int, flat@.len() as int)) =~= Seq::<Entry>::empty());
        }
    }
    while i > 0
        invariant
            i <= flat@.len(),
            forall|k: Seq<u8>|
                has_key(seen@, k) <==> #[trigger] latest(
                    entries(flat@.subrange(i as int, flat@.len() as int)),
                    k,
                ) is Some,
            forall|k: Seq<u8>|
                #[trigger] latest(entries(out@), k) == visible(
                    latest(entries(flat@.subrange(i as int, flat@.len() as int)), k),
                ),
        decreases i,
    {
        let ghost suffix = entries(flat@.subrange(i as int, flat@.len() as int));
        let ghost r = flat@[i - 1]@;
        let ghost old_seen = seen@;
        let ghost old_out = entries(out@);
        proof {
            assert(entries(flat@.subrange(i - 1, flat@.len() as int)) =~= seq![r] + suffix);
            assert forall|k: Seq<u8>| #[trigger] latest(seq![r] + suffix, k) == (if latest(suffix, k) is Some {
                latest(suffix, k)
            } else if r.0 == k {
                Some(r.1)
            } else {
                None
            }) by {
                lemma_latest_append(seq![r], suffix, k);
                assert(seq![r].drop_last() =~= Seq::<Entry>::empty());
                assert(seq![r].last() == r);
                assert(latest(seq![r].drop_last(), k) is None);
            }
        }
        let present = contains_key(&seen, flat[i - 1].key.as_slice());
        let pushed = !present && flat[i - 1].value.is_some();
        if !present {
            seen.push(copy_bytes(flat[i - 1].key.as_slice()));
            proof {
                assert forall|k: Seq<u8>| has_key(seen@, k) <==> (has_key(old_seen, k) || r.0 == k) by {
                    if has_key(old_seen, k) {
                        let j = choose|j: int| 0 <= j < old_seen.len() && (#[trigger] old_seen[j])@ == k;
                        assert(seen@[j] == old_seen[j]);
                    }
                    if r.0 == k {
                        assert(seen@[old_seen.len() as int]@ == k);
                    }
                    if has_key(seen@, k) {
                        let j = choose|j: int| 0 <= j < seen@.len() && (#[trigger] seen@[j])@ == k;
                        if j < old_seen.len() {
                            assert(old_seen[j] == seen@[j]);
                        }
                    }
                }
            }
            if flat[i - 1].value.is_some() {
                out.push(flat[i - 1].duplicate());
                proof {
                    assert(entries(out@).drop_last() =~= old_out);
                    assert(entries(out@).last() == r);
                }
            }
        }
        proof {
            let new_suffix = seq![r] + suffix;
            assert(present ==> latest(suffix, r.0) is Some);
            assert(!present ==> latest(suffix, r.0) is None);
            assert forall|k: Seq<u8>| #[trigger] latest(entries(out@), k) == visible(latest(new_suffix, k)) by {
                assert(latest(old_out, k) == visible(latest(suffix, k)));
                if pushed {
                    assert(entries(out@).drop_last() =~= old_out);
                    assert(entries(out@).last() == r);
                } else {
                    assert(entries(out@) == old_out);
                }
            }
        }
        i = i - 1;
    }
    assert(flat@.subrange(0, flat@.len() as int) =~= flat@);
    out
}

/// The storage engine's state: immutable segments, oldest first; the write
/// buffer; and the write-ahead log that holds the buffer's transactions.
pub struct Engine {
    segments: Vec<Vec<Record>>,
    buffer: Vec<Record>,
    log: Vec<u8>,
    frames: Ghost<Seq<Seq<Entry>>>,
}

impl View for Engine {
    type V = Map<Seq<u8>, Seq<u8>>;

    /// What every key maps to: the newest of all records, buffer above segments.
    open spec fn view(&self) -> Map<Seq<u8>, Seq<u8>> {
        contents(self.records())
    }
}

impl Engine {
    /// All records, oldest first.
    pub closed spec fn records(&self) -> Seq<Entry> {
        flatten(self.segments@) + entries(self.buffer@)
    }

    pub closed spec fn segments_view(&self) -> Seq<Vec<Record>> {
        self.segments@
    }

    /// The bytes that the durable log holds.
    pub closed spec fn log_view(&self) -> Seq<u8> {
        self.log@
    }

    pub closed spec fn wf(&self) -> bool {
        &&& self.log@ == log_bytes(self.frames@)
        &&& sorted(entries(self.buffer@))
        &&& forall|k: Seq<u8>| #[trigger] latest(entries(self.buffer@), k) == latest(concat(self.frames@), k)
        &&& forall|i: int| 0 <= i < self.segments@.len() ==> sorted(entries(#[trigger] self.segments@[i]@))
    }

    /// An empty store.
    pub fn new() -> (r: Engine)
        ensures
            r.wf(),
            r@ == Map::<Seq<u8>, Seq<u8>>::empty(),
            r.log_view().len() == 0,
            r.segments_view().len() == 0,
    {
        let r = Engine {
            segments: Vec::new(),
            buffer: Vec::new(),
            log: Vec::new(),
            frames: Ghost(Seq::empty()),
        };
        assert(entries(r.buffer@) =~= Seq::<Entry>::empty());
        assert(r.records() =~= Seq::<Entry>::empty());
        assert(r@ =~= Map::<Seq<u8>, Seq<u8>>::empty());
        r
    }

    /// The value of `key`, `None` where it is absent; an empty key is refused.
    pub fn get(&self, key: &[u8]) -> (r: Result<Option<Vec<u8>>, StorageError>)
        requires
            self.wf(),
        ensures
            key@.len() == 0 <==> r is Err,
            r is Err ==> r == Err::<Option<Vec<u8>>, StorageError>(StorageError::InvalidKey),
            r matches Ok(o) ==> opt_bytes(o) == (if self@.contains_key(key@) {
                Some(self@[key@])
            } else {
                None
            }),
    {
        if key.len() == 0 {
            return Err(StorageError::InvalidKey);
        }
        proof {
            lemma_latest_append(flatten(self.segments@), entries(self.buffer@), key@);
        }
        match find_sorted(&self.buffer, key) {
            Some(found) => {
                return Ok(found);
            },
            None => {},
        }
        let mut j: usize = self.segments.len();
        assert(self.segments@.subrange(0, j as int) =~= self.segments@);
        while j > 0
            invariant
                self.wf(),
                key@.len() > 0,
                j <= self.segments@.len(),
                latest(self.records(), key@) == latest(
                    flatten(self.segments@.subrange(0, j as int)),
                    key@,
                ),
            decreases j,
        {
            let ghost sub = self.segments@.subrange(0, j as int);
            proof {
                assert(sub.drop_last() =~= self.segments@.subrange(0, j - 1));
                lemma_latest_append(flatten(sub.drop_last()), entries(sub.last()@), key@);
            }
            match find_sorted(&self.segments[j - 1], key) {
                Some(found) => {
                    return Ok(found);
                },
                None => {},
            }
            j = j - 1;
        }
        Ok(None)
    }

    /// Applies a batch of records as one transaction: the frame goes to the
    /// log first, then the records to the buffer. A batch with an empty key
    /// is refused whole and changes nothing.
    pub fn write_batch(&mut self, batch: Vec<Record>) -> (r: Result<(), StorageError>)
        requires
            old(self).wf(),
        ensures
            final(self).wf(),
            r is Err <==> exists|i: int| 0 <= i < batch@.len() && #[trigger] batch@[i].key@.len() == 0,
            r is Err ==> r == Err::<(), StorageError>(StorageError::InvalidKey) && *final(self) == *old(self),
            r is Ok ==> final(self)@ == overlay(old(self)@, entries(batch@)),
            r is Ok ==> {
                ||| final(self).log_view() == old(self).log_view() + frame_bytes(entries(batch@))
                ||| final(self).log_view().len() == 0
            },
    {
        let mut i: usize = 0;
        while i < batch.len()
            invariant
                *self == *old(self),
                self.wf(),
                i <= batch@.len(),
                forall|j: int| 0 <= j < i ==> #[trigger] batch@[j].key@.len() > 0,
            decreases batch.len() - i,
        {
            if batch[i].key.len() == 0 {
                return Err(StorageError::InvalidKey);
            }
            i = i + 1;
        }
        let frame = encode_frame(&batch);
        let ghost old_records = self.records();
        let ghost old_frames = self.frames@;
        let ghost flat = flatten(self.segments@);
        let ghost be = entries(batch@);
        let mut frame = frame;
        self.log.append(&mut frame);
        proof {
            lemma_log_bytes_push(old_frames, be);
            lemma_concat_push(old_frames, be);
            self.frames = Ghost(old_frames.push(be));
            assert(entries(batch@.subrange(0, 0)) =~= Seq::<Entry>::empty());
            assert(concat(old_frames) + entries(batch@.subrange(0, 0)) =~= concat(old_frames));
        }
        let mut j: usize = 0;
        while j < batch.len()
            invariant
                j <= batch@.len(),
                be == entries(batch@),
                self.segments@ == old(self).segments@,
                self.log@ == log_bytes(self.frames@),
                self.frames@ == old_frames.push(be),
                forall|i: int| 0 <= i < self.segments@.len() ==> sorted(entries(#[trigger] self.segments@[i]@)),
                sorted(entries(self.buffer@)),
                forall|k: Seq<u8>| #[trigger] latest(entries(self.buffer@), k) == latest(
                    concat(old_frames) + entries(batch@.subrange(0, j as int)),
                    k,
                ),
            decreases batch.len() - j,
        {
            let rec = batch[j].duplicate();
            assert(rec@ == batch@[j as int]@);
            let ghost pre = concat(old_frames) + entries(batch@.subrange(0, j as int));
            let ghost next = concat(old_frames) + entries(batch@.subrange(0, j + 1));
            proof {
                assert(next.drop_last() =~= pre);
                assert(next.last() == batch@[j as int]@);
            }
            upsert_sorted(&mut self.buffer, rec);
            j = j + 1;
        }
        proof {
            assert(batch@.subrange(0, j as int) =~= batch@);
            assert forall|k: Seq<u8>| #[trigger] latest(self.records(), k) == latest(old_records + be, k) by {
                lemma_latest_append(flat, entries(self.buffer@), k);
                lemma_latest_append(concat(old_frames), be, k);
                lemma_latest_append(old_records, be, k);
                lemma_latest_append(flat, entries(old(self).buffer@), k);
            }
            lemma_contents_append(old_records, be);
            assert(self@ =~= contents(old_records + be));
        }
        if self.buffer.len() >= BUFFER_LIMIT {
            self.flush();
            if self.segments.len() >= COMPACT_AT {
                self.compact();
            }
        }
        Ok(())
    }

    /// Turns the buffer into the newest segment and empties the log.
    fn flush(&mut self)
        requires
            old(self).wf(),
        ensures
            final(self).wf(),
            final(self)@ == old(self)@,
            final(self).log_view().len() == 0,
            final(self).segments_view().len() == old(self).segments_view().len() + 1,
    {
        let mut buffer: Vec<Record> = Vec::new();
        std::mem::swap(&mut buffer, &mut self.buffer);
        let ghost old_segments = self.segments@;
        self.segments.push(buffer);
        self.log = Vec::new();
        proof {
            lemma_flatten_push(old_segments, buffer);
            self.frames = Ghost(Seq::empty());
            assert(entries(self.buffer@) =~= Seq::<Entry>::empty());
            assert(self.records() =~= flatten(old_segments) + entries(buffer@));
            assert forall|i: int| 0 <= i < self.segments@.len() implies sorted(entries(#[trigger] self.segments@[i]@)) by {
                if i < old_segments.len() {
                    assert(self.segments@[i] == old_segments[i]);
                }
            }
        }
    }

    /// Merges all segments into one that holds, for each key, its newest
    /// put that no tombstone hides; lookups are unchanged.
    pub fn compact(&mut self)
        requires
            old(self).wf(),
        ensures
            final(self).wf(),
            final(self)@ == old(self)@,
            final(self).log_view() == old(self).log_view(),
            final(self).segments_view().len() == 1,
    {
        let mut flat: Vec<Record> = Vec::new();
        let mut j: usize = 0;
        assert(self.segments@.subrange(0, 0) =~= Seq::<Vec<Record>>::empty());
        assert(entries(flat@) =~= Seq::<Entry>::empty());
        while j < self.segments.len()
            invariant
                j <= self.segments@.len(),
                entries(flat@) == flatten(self.segments@.subrange(0, j as int)),
            decreases self.segments.len() - j,
        {
            let seg = &self.segments[j];
            let ghost before = entries(flat@);
            let mut n: usize = 0;
            while n < seg.len()
                invariant
                    n <= seg@.len(),
                    entries(flat@) == before + entries(seg@.subrange(0, n as int)),
                decreases seg.len() - n,
            {
                let ghost pre = flat@;
                let rec = seg[n].duplicate();
                assert(rec@ == seg@[n as int]@);
                flat.push(rec);
                assert(entries(flat@) =~= entries(pre).push(seg@[n as int]@));
                assert(entries(seg@.subrange(0, n + 1)) =~= entries(seg@.subrange(0, n as int)).push(seg@[n as int]@));
                n = n + 1;
            }
            proof {
                assert(seg@.subrange(0, n as int) =~= seg@);
                assert(self.segments@.subrange(0, j + 1) =~= self.segments@.subrange(0, j as int).push(*seg));
                lemma_flatten_push(self.segments@.subrange(0, j as int), *seg);
            }
            j = j + 1;
        }
        assert(self.segments@.subrange(0, j as int) =~= self.segments@);
        let compacted = merge_records(&flat);
        let merged = build_sorted(&compacted);
        let ghost old_records = self.records();
        let ghost buf = entries(self.buffer@);
        let mut segments: Vec<Vec<Record>> = Vec::new();
        segments.push(merged);
        self.segments = segments;
        proof {
            lemma_flatten_push(Seq::<Vec<Record>>::empty(), merged);
            assert(Seq::<Vec<Record>>::empty().push(merged) =~= self.segments@);
            assert(self.segments@[0] == merged);
            assert(flatten(Seq::<Vec<Record>>::empty()) + entries(merged@) =~= entries(merged@));
            assert(old_records == entries(flat@) + buf);
            assert(self.records() == entries(merged@) + buf);
            assert forall|k: Seq<u8>| #[trigger] visible(latest(self.records(), k)) == visible(latest(old_records, k)) by {
                lemma_latest_append(entries(merged@), buf, k);
                lemma_latest_append(entries(flat@), buf, k);
            }
            assert forall|k: Seq<u8>| #[trigger] self@.contains_key(k) == old(self)@.contains_key(k) && (self@.contains_key(k) ==> self@[k] == old(self)@[k]) by {
                assert(visible(latest(self.records(), k)) == visible(latest(old_records, k)));
            }
            assert(self@ =~= old(self)@);
        }
    }

    /// Stores `value` under `key`; an empty key is refused.
    pub fn put(&mut self, key: &[u8], value: &[u8]) -> (r: Result<(), StorageError>)
        requires
            old(self).wf(),
        ensures
            final(self).wf(),
            key@.len() == 0 <==> r is Err,
            r is Err ==> r == Err::<(), StorageError>(StorageError::InvalidKey),
            r is Err ==> *final(self) == *old(self),
            r is Ok ==> final(self)@ == old(self)@.insert(key@, value@),
    {
        let rec = Record::put(key, value);
        let batch = vec![rec];
        assert(entries(batch@) =~= seq![(key@, Some(value@))]);
        proof {
            lemma_overlay_put(self@, key@, value@);
        }
        let r = self.write_batch(batch);
        proof {
            if key@.len() == 0 {
                assert(batch@[0].key@.len() == 0);
            }
        }
        r
    }

    /// Writes a tombstone for `key`; an empty key is refused. Deleting an
    /// absent key succeeds and leaves the contents as they were.
    pub fn delete(&mut self, key: &[u8]) -> (r: Result<(), StorageError>)
        requires
            old(self).wf(),
        ensures
            final(self).wf(),
            key@.len() == 0 <==> r is Err,
            r is Err ==> r == Err::<(), StorageError>(StorageError::InvalidKey),
            r is Err ==> *final(self) == *old(self),
            r is Ok ==> final(self)@ == old(self)@.remove(key@),
    {
        let rec = Record::tombstone(key);
        let batch = vec![rec];
        assert(entries(batch@) =~= seq![(key@, None::<Seq<u8>>)]);
        proof {
            lemma_overlay_tombstone(self@, key@);
        }
        let r = self.write_batch(batch);
        proof {
            if key@.len() == 0 {
                assert(batch@[0].key@.len() == 0);
            }
        }
        r
    }

    /// Rebuilds the engine from its segments, oldest first, each sorted by
    /// key, and the bytes of its log: a segment out of order is corruption; the log's complete transactions are replayed over the
    /// segments, a transaction cut short at its end is dropped, and a
    /// corrupt one fails the whole recovery. The rebuilt log holds the
    /// replayed transactions alone.
    pub fn recover(segments: Vec<Vec<Record>>, log: &[u8]) -> (r: Result<Engine, StorageError>)
        ensures
            r is Err <==> (parse_log(log@) is None || exists|i: int|
                0 <= i < segments@.len() && !sorted(entries(#[trigger] segments@[i]@))),
            r is Err ==> r == Err::<Engine, StorageError>(StorageError::CorruptLog),
            r matches Ok(e) ==> e.wf() && e.segments_view() == segments@
                && e.log_view() == log_bytes(parse_log(log@)->Some_0)
                && e@ == contents(flatten(segments@) + concat(parse_log(log@)->Some_0)),
    {
        let mut n: usize = 0;
        while n < segments.len()
            invariant
                n <= segments@.len(),
                forall|i: int| 0 <= i < n ==> sorted(entries(#[trigger] segments@[i]@)),
            decreases segments.len() - n,
        {
            if !is_sorted(&segments[n]) {
                return Err(StorageError::CorruptLog);
            }
            n = n + 1;
        }
        let parsed = match parse_log_exec(log) {
            Some(fs) => fs,
            None => {
                return Err(StorageError::CorruptLog);
            },
        };
        let mut buffer: Vec<Record> = Vec::new();
        let mut clean: Vec<u8> = Vec::new();
        let mut i: usize = 0;
        assert(frames_view(parsed@).subrange(0, 0) =~= Seq::<Seq<Entry>>::empty());
        assert(entries(buffer@) =~= Seq::<Entry>::empty());
        while i < parsed.len()
            invariant
                forall|m: int| 0 <= m < segments@.len() ==> sorted(entries(#[trigger] segments@[m]@)),
                i <= parsed@.len(),
                clean@ == log_bytes(frames_view(parsed@).subrange(0, i as int)),
                entries(buffer@) == concat(frames_view(parsed@).subrange(0, i as int)),
            decreases parsed.len() - i,
        {
            let frame = &parsed[i];
            let mut bytes = encode_frame(frame);
            clean.append(&mut bytes);
            let ghost before = entries(buffer@);
            let mut j: usize = 0;
            while j < frame.len()
                invariant
                    j <= frame@.len(),
                    entries(buffer@) == before + entries(frame@.subrange(0, j as int)),
                decreases frame.len() - j,
            {
                let ghost pre = buffer@;
                let rec = frame[j].duplicate();
                assert(rec@ == frame@[j as int]@);
                buffer.push(rec);
                assert(entries(buffer@) =~= entries(pre).push(frame@[j as int]@));
                assert(entries(frame@.subrange(0, j + 1)) =~= entries(frame@.subrange(0, j as int)).push(frame@[j as int]@));
                j = j + 1;
                assert(entries(buffer@) =~= before + entries(frame@.subrange(0, j as int)));
            }
            proof {
                let done = frames_view(parsed@).subrange(0, i as int);
                assert(frame@.subrange(0, j as int) =~= frame@);
                assert(frames_view(parsed@).subrange(0, i + 1) =~= done.push(entries(frame@)));
                lemma_log_bytes_push(done, entries(frame@));
                lemma_concat_push(done, entries(frame@));
            }
            i = i + 1;
        }
        assert(frames_view(parsed@).subrange(0, i as int) =~= frames_view(parsed@));
        let ghost replayed = entries(buffer@);
        let buffer = build_sorted(&buffer);
        let e = Engine { segments, buffer, log: clean, frames: Ghost(frames_view(parsed@)) };
        proof {
            let flat = flatten(e.segments@);
            assert forall|k: Seq<u8>| #[trigger] latest(e.records(), k) == latest(flat + replayed, k) by {
                lemma_latest_append(flat, entries(e.buffer@), k);
                lemma_latest_append(flat, replayed, k);
            }
            assert(e@ =~= contents(flat + replayed));
        }
        Ok(e)
    }

    /// The segment at `i`, oldest first.
    pub fn segment(&self, i: usize) -> (r: &Vec<Record>)
        requires
            i < self.segments_view().len(),
        ensures
            *r == self.segments_view()[i as int],
    {
        &self.segments[i]
    }

    /// The bytes of the write-ahead log since the last flush.
    pub fn log_bytes(&self) -> (r: &Vec<u8>)
        ensures
            r@ == self.log_view(),
    {
        &self.log
    }

    /// The number of immutable segments.
    pub fn segment_count(&self) -> (r: usize)
        ensures
            r == self.segments_view().len(),
    {
        self.segments.len()
    }
}

/// Recovery is atomic per batch: over the same segments, a log that ends
/// with the batch's complete frame recovers the earlier state with the whole
/// batch applied, and a log whose last frame the crash cut short recovers the
/// earlier state with none of it.
pub proof fn lemma_recovery_atomic(
    segments: Seq<Vec<Record>>,
    earlier: Seq<Seq<Entry>>,
    batch: Seq<Entry>,
    cut: int,
)
    requires
        frames_fit(earlier),
        frame_fits(batch),
        0 <= cut < frame_bytes(batch).len(),
    ensures
        parse_log(log_bytes(earlier) + frame_bytes(batch)) matches Some(g) && contents(
            flatten(segments) + concat(g),
        ) == overlay(contents(flatten(segments) + concat(earlier)), batch),
        parse_log(log_bytes(earlier) + frame_bytes(batch).subrange(0, cut)) matches Some(g)
            && contents(flatten(segments) + concat(g)) == contents(
            flatten(segments) + concat(earlier),
        ),
{
    lemma_batch_atomic(earlier, batch, cut);
    lemma_concat_push(earlier, batch);
    let base = flatten(segments) + concat(earlier);
    assert(flatten(segments) + concat(earlier.push(batch)) =~= base + batch);
    lemma_contents_append(base, batch);
}

} // verus!
