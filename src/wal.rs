//! The write-ahead log's byte format.
//!
//! The log is a sequence of frames, one per write transaction. A frame is the
//! length of its payload as a little-endian `u64`, then the payload: the
//! transaction's records one after another. A record is a tag byte (1 for a
//! put, 0 for a tombstone), the key's length as a little-endian `u64`, the key,
//! and for a put the value's length and the value in the same way. A frame cut
//! short at the end of the log is a write that never completed: recovery drops
//! it. A complete frame whose payload does not read back as records is
//! corruption.

use vstd::prelude::*;
use crate::engine::{Entry, Record, StorageError, entries};

verus! {

pub open spec fn u64_le(n: u64) -> Seq<u8> {
    seq![
        n as u8,
        (n >> 8u64) as u8,
        (n >> 16u64) as u8,
        (n >> 24u64) as u8,
        (n >> 32u64) as u8,
        (n >> 40u64) as u8,
        (n >> 48u64) as u8,
        (n >> 56u64) as u8,
    ]
}

pub open spec fn le_u64(b0: u8, b1: u8, b2: u8, b3: u8, b4: u8, b5: u8, b6: u8, b7: u8) -> u64 {
    (b0 as u64) | ((b1 as u64) << 8u64) | ((b2 as u64) << 16u64) | ((b3 as u64) << 24u64) | (
    (b4 as u64) << 32u64) | ((b5 as u64) << 40u64) | ((b6 as u64) << 48u64) | ((b7 as u64)
        << 56u64)
}

/// The little-endian `u64` at `at` in `b`.
pub open spec fn read_u64(b: Seq<u8>, at: int) -> u64 {
    le_u64(b[at], b[at + 1], b[at + 2], b[at + 3], b[at + 4], b[at + 5], b[at + 6], b[at + 7])
}

pub proof fn lemma_u64_round_trip(n: u64)
    ensures
        le_u64(
            n as u8,
            (n >> 8u64) as u8,
            (n >> 16u64) as u8,
            (n >> 24u64) as u8,
            (n >> 32u64) as u8,
            (n >> 40u64) as u8,
            (n >> 48u64) as u8,
            (n >> 56u64) as u8,
        ) == n,
{
    assert(((n as u8) as u64) | ((((n >> 8u64) as u8) as u64) << 8u64) | ((((n >> 16u64) as u8)
        as u64) << 16u64) | ((((n >> 24u64) as u8) as u64) << 24u64) | ((((n >> 32u64) as u8)
        as u64) << 32u64) | ((((n >> 40u64) as u8) as u64) << 40u64) | ((((n >> 48u64) as u8)
        as u64) << 48u64) | ((((n >> 56u64) as u8) as u64) << 56u64) == n) by (bit_vector);
}

/// Whether every length in the entry fits the format's `u64` fields.
pub open spec fn entry_fits(e: Entry) -> bool {
    &&& e.0.len() <= u64::MAX
    &&& e.1 matches Some(v) ==> v.len() <= u64::MAX
}

pub open spec fn entry_bytes(e: Entry) -> Seq<u8> {
    match e.1 {
        Some(v) => seq![1u8] + u64_le(e.0.len() as u64) + e.0 + u64_le(v.len() as u64) + v,
        None => seq![0u8] + u64_le(e.0.len() as u64) + e.0,
    }
}

pub open spec fn entries_bytes(es: Seq<Entry>) -> Seq<u8>
    decreases es.len(),
{
    if es.len() == 0 {
        Seq::empty()
    } else {
        entry_bytes(es[0]) + entries_bytes(es.drop_first())
    }
}

pub open spec fn frame_bytes(es: Seq<Entry>) -> Seq<u8> {
    u64_le(entries_bytes(es).len() as u64) + entries_bytes(es)
}

/// The bytes of a log holding the given transactions, oldest first.
pub open spec fn log_bytes(frames: Seq<Seq<Entry>>) -> Seq<u8>
    decreases frames.len(),
{
    if frames.len() == 0 {
        Seq::empty()
    } else {
        frame_bytes(frames[0]) + log_bytes(frames.drop_first())
    }
}

/// All records of the given transactions, in order.
pub open spec fn concat(frames: Seq<Seq<Entry>>) -> Seq<Entry>
    decreases frames.len(),
{
    if frames.len() == 0 {
        Seq::empty()
    } else {
        frames[0] + concat(frames.drop_first())
    }
}

pub proof fn lemma_entries_bytes_push(es: Seq<Entry>, e: Entry)
    ensures
        entries_bytes(es.push(e)) == entries_bytes(es) + entry_bytes(e),
    decreases es.len(),
{
    if es.len() == 0 {
        assert(es.push(e).drop_first() =~= Seq::<Entry>::empty());
        assert(es.push(e)[0] == e);
        assert(entries_bytes(es.push(e).drop_first()) == Seq::<u8>::empty());
        assert(entries_bytes(es.push(e)) =~= entries_bytes(es) + entry_bytes(e));
    } else {
        assert(es.push(e).drop_first() =~= es.drop_first().push(e));
        lemma_entries_bytes_push(es.drop_first(), e);
        assert(es.push(e)[0] == es[0]);
        let a = entry_bytes(es[0]);
        let b = entries_bytes(es.drop_first());
        assert(a + (b + entry_bytes(e)) =~= (a + b) + entry_bytes(e));
    }
}

pub proof fn lemma_log_bytes_push(frames: Seq<Seq<Entry>>, es: Seq<Entry>)
    ensures
        log_bytes(frames.push(es)) == log_bytes(frames) + frame_bytes(es),
    decreases frames.len(),
{
    if frames.len() == 0 {
        assert(frames.push(es).drop_first() =~= Seq::<Seq<Entry>>::empty());
        assert(frames.push(es)[0] == es);
        assert(log_bytes(frames.push(es).drop_first()) == Seq::<u8>::empty());
        assert(log_bytes(frames.push(es)) =~= log_bytes(frames) + frame_bytes(es));
    } else {
        assert(frames.push(es).drop_first() =~= frames.drop_first().push(es));
        lemma_log_bytes_push(frames.drop_first(), es);
        assert(frames.push(es)[0] == frames[0]);
        let a = frame_bytes(frames[0]);
        let b = log_bytes(frames.drop_first());
        assert(a + (b + frame_bytes(es)) =~= (a + b) + frame_bytes(es));
    }
}

pub proof fn lemma_concat_push(frames: Seq<Seq<Entry>>, es: Seq<Entry>)
    ensures
        concat(frames.push(es)) == concat(frames) + es,
    decreases frames.len(),
{
    if frames.len() == 0 {
        assert(frames.push(es).drop_first() =~= Seq::<Seq<Entry>>::empty());
        assert(frames.push(es)[0] == es);
        assert(concat(frames.push(es).drop_first()) == Seq::<Entry>::empty());
        assert(concat(frames.push(es)) =~= concat(frames) + es);
    } else {
        assert(frames.push(es).drop_first() =~= frames.drop_first().push(es));
        lemma_concat_push(frames.drop_first(), es);
        assert(frames.push(es)[0] == frames[0]);
        let a = frames[0];
        let b = concat(frames.drop_first());
        assert(a + (b + es) =~= (a + b) + es);
    }
}

fn push_u64(out: &mut Vec<u8>, n: u64)
    ensures
        final(out)@ == old(out)@ + u64_le(n),
{
    out.push(n as u8);
    out.push((n >> 8u64) as u8);
    out.push((n >> 16u64) as u8);
    out.push((n >> 24u64) as u8);
    out.push((n >> 32u64) as u8);
    out.push((n >> 40u64) as u8);
    out.push((n >> 48u64) as u8);
    out.push((n >> 56u64) as u8);
    assert(final(out)@ =~= old(out)@ + u64_le(n));
}

fn push_bytes(out: &mut Vec<u8>, b: &[u8])
    ensures
        final(out)@ == old(out)@ + b@,
{
    let mut i: usize = 0;
    while i < b.len()
        invariant
            i <= b@.len(),
            out@ == old(out)@ + b@.subrange(0, i as int),
        decreases b.len() - i,
    {
        out.push(b[i]);
        i = i + 1;
        assert(out@ =~= old(out)@ + b@.subrange(0, i as int));
    }
    assert(b@.subrange(0, i as int) =~= b@);
}

/// Appends the bytes of one record.
pub fn push_record(out: &mut Vec<u8>, r: &Record)
    ensures
        final(out)@ == old(out)@ + entry_bytes(r@),
{
    match &r.value {
        Some(v) => {
            out.push(1u8);
            push_u64(out, r.key.len() as u64);
            push_bytes(out, r.key.as_slice());
            push_u64(out, v.len() as u64);
            push_bytes(out, v.as_slice());
        },
        None => {
            out.push(0u8);
            push_u64(out, r.key.len() as u64);
            push_bytes(out, r.key.as_slice());
        },
    }
    assert(final(out)@ =~= old(out)@ + entry_bytes(r@));
}

/// The frame that logs one transaction.
pub fn encode_frame(batch: &Vec<Record>) -> (r: Vec<u8>)
    ensures
        r@ == frame_bytes(entries(batch@)),
{
    let mut payload: Vec<u8> = Vec::new();
    let mut i: usize = 0;
    while i < batch.len()
        invariant
            i <= batch@.len(),
            payload@ == entries_bytes(entries(batch@.subrange(0, i as int))),
        decreases batch.len() - i,
    {
        push_record(&mut payload, &batch[i]);
        proof {
            lemma_entries_bytes_push(entries(batch@.subrange(0, i as int)), batch@[i as int]@);
            assert(entries(batch@.subrange(0, i + 1)) =~= entries(
                batch@.subrange(0, i as int),
            ).push(batch@[i as int]@));
        }
        i = i + 1;
    }
    assert(batch@.subrange(0, i as int) =~= batch@);
    let mut out: Vec<u8> = Vec::new();
    push_u64(&mut out, payload.len() as u64);
    push_bytes(&mut out, payload.as_slice());
    out
}

/// The record at the start of `b`, with the number of bytes it takes.
pub open spec fn parse_entry(b: Seq<u8>) -> Option<(Entry, int)> {
    if b.len() < 9 || b[0] > 1 {
        None
    } else {
        let klen = read_u64(b, 1) as int;
        if b.len() < 9 + klen {
            None
        } else if b[0] == 0 {
            Some(((b.subrange(9, 9 + klen), None), 9 + klen))
        } else if b.len() < 17 + klen {
            None
        } else {
            let vlen = read_u64(b, 9 + klen) as int;
            if b.len() < 17 + klen + vlen {
                None
            } else {
                Some(
                    (
                        (b.subrange(9, 9 + klen), Some(b.subrange(17 + klen, 17 + klen + vlen))),
                        17 + klen + vlen,
                    ),
                )
            }
        }
    }
}

/// The records that make up all of `b`, `None` where `b` is not a sequence of records.
pub open spec fn parse_entries(b: Seq<u8>) -> Option<Seq<Entry>>
    decreases b.len(),
{
    if b.len() == 0 {
        Some(Seq::empty())
    } else {
        match parse_entry(b) {
            None => None,
            Some((e, n)) => if 0 < n <= b.len() {
                match parse_entries(b.subrange(n, b.len() as int)) {
                    Some(t) => Some(seq![e] + t),
                    None => None,
                }
            } else {
                None
            },
        }
    }
}

/// The transactions of a log: complete frames in order, a frame cut short at
/// the end dropped; `None` where a complete frame's payload is not records.
pub open spec fn parse_log(b: Seq<u8>) -> Option<Seq<Seq<Entry>>>
    decreases b.len(),
{
    if b.len() < 8 {
        Some(Seq::empty())
    } else {
        let n = read_u64(b, 0) as int;
        if b.len() - 8 < n {
            Some(Seq::empty())
        } else {
            match parse_entries(b.subrange(8, 8 + n)) {
                None => None,
                Some(es) => match parse_log(b.subrange(8 + n, b.len() as int)) {
                    Some(fs) => Some(seq![es] + fs),
                    None => None,
                },
            }
        }
    }
}

pub open spec fn prepend<T>(done: Seq<T>, rest: Option<Seq<T>>) -> Option<Seq<T>> {
    match rest {
        Some(t) => Some(done + t),
        None => None,
    }
}

fn read_u64_at(b: &[u8], at: usize) -> (r: u64)
    requires
        at + 8 <= b@.len(),
    ensures
        r == read_u64(b@, at as int),
{
    proof {
        }
    (b[at] as u64) | ((b[at + 1] as u64) << 8u64) | ((b[at + 2] as u64) << 16u64) | ((b[at + 3]
        as u64) << 24u64) | ((b[at + 4] as u64) << 32u64) | ((b[at + 5] as u64) << 40u64) | ((b[at
        + 6] as u64) << 48u64) | ((b[at + 7] as u64) << 56u64)
}

fn parse_entry_exec(b: &[u8]) -> (r: Option<(Record, usize)>)
    ensures
        r is None <==> parse_entry(b@) is None,
        r matches Some((rec, n)) ==> parse_entry(b@) == Some((rec@, n as int)),
{
    if b.len() < 9 || b[0] > 1 {
        return None;
    }
    let klen = read_u64_at(b, 1);
    if klen > (b.len() - 9) as u64 {
        return None;
    }
    let kend = 9 + klen as usize;
    let key = crate::engine::copy_bytes(vstd::slice::slice_subrange(b, 9, kend));
    if b[0] == 0 {
        return Some((Record { key, value: None }, kend));
    }
    if b.len() - kend < 8 {
        return None;
    }
    let vlen = read_u64_at(b, kend);
    if vlen > (b.len() - (kend + 8)) as u64 {
        return None;
    }
    let vend = kend + 8 + vlen as usize;
    let value = crate::engine::copy_bytes(vstd::slice::slice_subrange(b, kend + 8, vend));
    Some((Record { key, value: Some(value) }, vend))
}

fn parse_entries_exec(b: &[u8]) -> (r: Option<Vec<Record>>)
    ensures
        match r {
            Some(rs) => parse_entries(b@) == Some(entries(rs@)),
            None => parse_entries(b@) is None,
        },
{
    let mut done: Vec<Record> = Vec::new();
    let mut pos: usize = 0;
    assert(b@.subrange(0, b@.len() as int) =~= b@);
    while pos < b.len()
        invariant
            pos <= b@.len(),
            parse_entries(b@) == prepend(entries(done@), parse_entries(b@.subrange(pos as int, b@.len() as int))),
        decreases b.len() - pos,
    {
        let rest = vstd::slice::slice_subrange(b, pos, b.len());
        match parse_entry_exec(rest) {
            None => {
                return None;
            },
            Some((rec, n)) => {
                let ghost old_done = entries(done@);
                proof {
                    assert(rest@.subrange(n as int, rest@.len() as int) =~= b@.subrange(pos + n, b@.len() as int));
                }
                done.push(rec);
                pos = pos + n;
                proof {
                    assert(entries(done@) =~= old_done + seq![rec@]);
                    match parse_entries(b@.subrange(pos as int, b@.len() as int)) {
                        Some(t) => {
                            assert(old_done + (seq![rec@] + t) =~= entries(done@) + t);
                        },
                        None => {},
                    }
                }
            },
        }
    }
    proof {
        assert(b@.subrange(pos as int, b@.len() as int) =~= Seq::<u8>::empty());
        assert(entries(done@) + Seq::<Entry>::empty() =~= entries(done@));
    }
    Some(done)
}

pub open spec fn frames_view(fs: Seq<Vec<Record>>) -> Seq<Seq<Entry>> {
    fs.map_values(|f: Vec<Record>| entries(f@))
}

/// Reads the transactions of a log back, or `None` where a complete frame is corrupt.
pub fn parse_log_exec(b: &[u8]) -> (r: Option<Vec<Vec<Record>>>)
    ensures
        match r {
            Some(fs) => parse_log(b@) == Some(frames_view(fs@)),
            None => parse_log(b@) is None,
        },
{
    let mut done: Vec<Vec<Record>> = Vec::new();
    let mut pos: usize = 0;
    assert(b@.subrange(0, b@.len() as int) =~= b@);
    assert(frames_view(done@) + Seq::<Seq<Entry>>::empty() =~= frames_view(done@));
    loop
        invariant
            pos <= b@.len(),
            parse_log(b@) == prepend(frames_view(done@), parse_log(b@.subrange(pos as int, b@.len() as int))),
        decreases b.len() - pos,
    {
        let rest = vstd::slice::slice_subrange(b, pos, b.len());
        if rest.len() < 8 {
            proof {
                assert(frames_view(done@) + Seq::<Seq<Entry>>::empty() =~= frames_view(done@));
            }
            return Some(done);
        }
        let n = read_u64_at(rest, 0);
        if n > (rest.len() - 8) as u64 {
            proof {
                assert(frames_view(done@) + Seq::<Seq<Entry>>::empty() =~= frames_view(done@));
            }
            return Some(done);
        }
        let end = 8 + n as usize;
        match parse_entries_exec(vstd::slice::slice_subrange(rest, 8, end)) {
            None => {
                return None;
            },
            Some(frame) => {
                let ghost old_done = frames_view(done@);
                proof {
                    assert(rest@.subrange(end as int, rest@.len() as int) =~= b@.subrange(pos + end, b@.len() as int));
                }
                done.push(frame);
                pos = pos + end;
                proof {
                    assert(frames_view(done@) =~= old_done + seq![entries(frame@)]);
                    match parse_log(b@.subrange(pos as int, b@.len() as int)) {
                        Some(t) => {
                            assert(old_done + (seq![entries(frame@)] + t) =~= frames_view(done@) + t);
                        },
                        None => {},
                    }
                }
            },
        }
    }
}

/// Reads a segment file, which holds its records as a single frame; anything
/// else is corruption.
pub fn read_segment(b: &[u8]) -> (r: Result<Vec<Record>, StorageError>)
    ensures
        r is Ok <==> (parse_log(b@) matches Some(fs) && fs.len() == 1),
        r is Err ==> r == Err::<Vec<Record>, StorageError>(StorageError::CorruptLog),
        r matches Ok(rs) ==> parse_log(b@) == Some(seq![entries(rs@)]),
{
    match parse_log_exec(b) {
        Some(fs) => {
            if fs.len() != 1 {
                return Err(StorageError::CorruptLog);
            }
            let mut fs = fs;
            let ghost all = fs@;
            match fs.pop() {
                Some(seg) => {
                    assert(frames_view(all) =~= seq![entries(seg@)]);
                    Ok(seg)
                },
                None => Err(StorageError::CorruptLog),
            }
        },
        None => Err(StorageError::CorruptLog),
    }
}

/// The manifest: the current segment generation and the number of
/// segments, each a little-endian `u64`.
pub fn encode_manifest(generation: u64, count: u64) -> (r: Vec<u8>)
    ensures
        r@ == u64_le(generation) + u64_le(count),
{
    let mut out: Vec<u8> = Vec::new();
    push_u64(&mut out, generation);
    push_u64(&mut out, count);
    out
}

/// Reads a manifest back; anything but sixteen bytes is refused.
pub fn decode_manifest(b: &[u8]) -> (r: Option<(u64, u64)>)
    ensures
        r is Some <==> b@.len() == 16,
        r matches Some((g, c)) ==> g == read_u64(b@, 0) && c == read_u64(b@, 8),
        r matches Some((g, c)) ==> b@ == u64_le(g) + u64_le(c),
{
    if b.len() != 16 {
        return None;
    }
    let g = read_u64_at(b, 0);
    let c = read_u64_at(b, 8);
    proof {
        lemma_u64_bytes(b@.subrange(0, 8), g);
        lemma_u64_bytes(b@.subrange(8, 16), c);
        assert(b@ =~= b@.subrange(0, 8) + b@.subrange(8, 16));
    }
    Some((g, c))
}

/// Eight bytes are the little-endian form of the value they read as.
proof fn lemma_u64_bytes(b: Seq<u8>, n: u64)
    requires
        b.len() == 8,
        read_u64(b, 0) == n,
    ensures
        b == u64_le(n),
{
    let (b0, b1, b2, b3, b4, b5, b6, b7) = (b[0], b[1], b[2], b[3], b[4], b[5], b[6], b[7]);
    assert(n as u8 == b0 && (n >> 8u64) as u8 == b1 && (n >> 16u64) as u8 == b2 && (n >> 24u64)
        as u8 == b3 && (n >> 32u64) as u8 == b4 && (n >> 40u64) as u8 == b5 && (n >> 48u64) as u8
        == b6 && (n >> 56u64) as u8 == b7) by (bit_vector)
        requires
            n == (b0 as u64) | ((b1 as u64) << 8u64) | ((b2 as u64) << 16u64) | ((b3 as u64)
                << 24u64) | ((b4 as u64) << 32u64) | ((b5 as u64) << 40u64) | ((b6 as u64) << 48u64)
                | ((b7 as u64) << 56u64),
    ;
    assert(b =~= u64_le(n));
}

proof fn lemma_read_u64_at(b: Seq<u8>, at: int, n: u64)
    requires
        0 <= at,
        at + 8 <= b.len(),
        b.subrange(at, at + 8) == u64_le(n),
    ensures
        read_u64(b, at) == n,
{
    let s = b.subrange(at, at + 8);
    assert(b[at] == s[0] && b[at + 1] == s[1] && b[at + 2] == s[2] && b[at + 3] == s[3]);
    assert(b[at + 4] == s[4] && b[at + 5] == s[5] && b[at + 6] == s[6] && b[at + 7] == s[7]);
    lemma_u64_round_trip(n);
}

/// A record's bytes read back as the record, whatever follows them.
pub proof fn lemma_parse_entry(e: Entry, rest: Seq<u8>)
    requires
        entry_fits(e),
    ensures
        parse_entry(entry_bytes(e) + rest) == Some((e, entry_bytes(e).len() as int)),
{
    let b = entry_bytes(e) + rest;
    let k = e.0;
    let kl = k.len() as int;
    assert(b.subrange(1, 9) =~= u64_le(k.len() as u64));
    lemma_read_u64_at(b, 1, k.len() as u64);
    assert(b.subrange(9, 9 + kl) =~= k);
    match e.1 {
        Some(v) => {
            assert(b.subrange(9 + kl, 17 + kl) =~= u64_le(v.len() as u64));
            lemma_read_u64_at(b, 9 + kl, v.len() as u64);
            assert(b.subrange(17 + kl, 17 + kl + v.len()) =~= v);
        },
        None => {},
    }
}

pub open spec fn entries_fit(es: Seq<Entry>) -> bool {
    forall|i: int| 0 <= i < es.len() ==> entry_fits(#[trigger] es[i])
}

/// The bytes of a sequence of records read back as those records.
pub proof fn lemma_parse_entries(es: Seq<Entry>)
    requires
        entries_fit(es),
    ensures
        parse_entries(entries_bytes(es)) == Some(es),
    decreases es.len(),
{
    if es.len() > 0 {
        let b = entries_bytes(es);
        let first = entry_bytes(es[0]);
        let tail = entries_bytes(es.drop_first());
        assert(entry_fits(es[0]));
        lemma_parse_entry(es[0], tail);
        assert(b.subrange(first.len() as int, b.len() as int) =~= tail);
        assert(first.len() > 0);
        assert(entries_fit(es.drop_first())) by {
            assert forall|i: int| 0 <= i < es.drop_first().len() implies entry_fits(#[trigger] es.drop_first()[i]) by {
                assert(es.drop_first()[i] == es[i + 1]);
            }
        }
        lemma_parse_entries(es.drop_first());
        assert(seq![es[0]] + es.drop_first() =~= es);
    } else {
        assert(entries_bytes(es) =~= Seq::<u8>::empty());
    }
}

/// Whether a transaction can be framed: its records fit, and so does its payload length.
pub open spec fn frame_fits(es: Seq<Entry>) -> bool {
    entries_fit(es) && entries_bytes(es).len() <= u64::MAX
}

pub open spec fn frames_fit(fs: Seq<Seq<Entry>>) -> bool {
    forall|i: int| 0 <= i < fs.len() ==> frame_fits(#[trigger] fs[i])
}

/// A complete frame is read as its transaction, then the rest of the log.
pub proof fn lemma_parse_frame(es: Seq<Entry>, rest: Seq<u8>)
    requires
        frame_fits(es),
    ensures
        parse_log(frame_bytes(es) + rest) == prepend(seq![es], parse_log(rest)),
{
    let b = frame_bytes(es) + rest;
    let p = entries_bytes(es);
    assert(b.subrange(0, 8) =~= u64_le(p.len() as u64));
    lemma_read_u64_at(b, 0, p.len() as u64);
    assert(b.subrange(8, 8 + p.len() as int) =~= p);
    assert(b.subrange(8 + p.len() as int, b.len() as int) =~= rest);
    lemma_parse_entries(es);
}

/// A frame cut short reads as no transaction at all.
pub proof fn lemma_parse_torn(es: Seq<Entry>, cut: int)
    requires
        frame_fits(es),
        0 <= cut < frame_bytes(es).len(),
    ensures
        parse_log(frame_bytes(es).subrange(0, cut)) == Some(Seq::<Seq<Entry>>::empty()),
{
    let t = frame_bytes(es).subrange(0, cut);
    let p = entries_bytes(es);
    if cut >= 8 {
        assert(t.subrange(0, 8) =~= u64_le(p.len() as u64));
        lemma_read_u64_at(t, 0, p.len() as u64);
    }
}

proof fn lemma_frames_fit_rest(fs: Seq<Seq<Entry>>)
    requires
        frames_fit(fs),
        fs.len() > 0,
    ensures
        frame_fits(fs[0]),
        frames_fit(fs.drop_first()),
{
    assert forall|i: int| 0 <= i < fs.drop_first().len() implies frame_fits(#[trigger] fs.drop_first()[i]) by {
        assert(fs.drop_first()[i] == fs[i + 1]);
    }
}

proof fn lemma_log_bytes_first(fs: Seq<Seq<Entry>>, tail: Seq<u8>)
    requires
        fs.len() > 0,
    ensures
        log_bytes(fs) + tail == frame_bytes(fs[0]) + (log_bytes(fs.drop_first()) + tail),
{
    assert(log_bytes(fs) == frame_bytes(fs[0]) + log_bytes(fs.drop_first()));
    assert(log_bytes(fs) + tail =~= frame_bytes(fs[0]) + (log_bytes(fs.drop_first()) + tail));
}

/// A log of complete frames, perhaps followed by one frame cut short, reads
/// back as the complete frames' transactions.
pub proof fn lemma_parse_log(fs: Seq<Seq<Entry>>, tail: Seq<u8>)
    requires
        frames_fit(fs),
        parse_log(tail) == Some(Seq::<Seq<Entry>>::empty()),
    ensures
        parse_log(log_bytes(fs) + tail) == Some(fs),
    decreases fs.len(),
{
    if fs.len() == 0 {
        assert(log_bytes(fs) =~= Seq::<u8>::empty());
        assert(log_bytes(fs) + tail =~= tail);
        assert(fs =~= Seq::<Seq<Entry>>::empty());
    } else {
        lemma_frames_fit_rest(fs);
        lemma_parse_log(fs.drop_first(), tail);
        lemma_log_bytes_first(fs, tail);
        lemma_parse_frame(fs[0], log_bytes(fs.drop_first()) + tail);
        assert(seq![fs[0]] + fs.drop_first() =~= fs);
    }
}

/// A batch is atomic across a crash: once its frame is completely in the log,
/// replay yields the batch whole after the earlier transactions; if the crash
/// cut the frame short, replay yields the earlier transactions alone.
pub proof fn lemma_batch_atomic(fs: Seq<Seq<Entry>>, batch: Seq<Entry>, cut: int)
    requires
        frames_fit(fs),
        frame_fits(batch),
        0 <= cut < frame_bytes(batch).len(),
    ensures
        parse_log(log_bytes(fs) + frame_bytes(batch)) == Some(fs.push(batch)),
        parse_log(log_bytes(fs) + frame_bytes(batch).subrange(0, cut)) == Some(fs),
{
    lemma_parse_torn(batch, cut);
    lemma_parse_log(fs, frame_bytes(batch).subrange(0, cut));
    lemma_log_bytes_push(fs, batch);
    assert(frames_fit(fs.push(batch))) by {
        assert forall|i: int| 0 <= i < fs.push(batch).len() implies frame_fits(#[trigger] fs.push(batch)[i]) by {
            if i < fs.len() {
                assert(fs.push(batch)[i] == fs[i]);
            }
        }
    }
    assert(parse_log(Seq::<u8>::empty()) == Some(Seq::<Seq<Entry>>::empty()));
    lemma_parse_log(fs.push(batch), Seq::<u8>::empty());
    assert(log_bytes(fs.push(batch)) + Seq::<u8>::empty() =~= log_bytes(fs.push(batch)));
}

} // verus!
