//! Sorted segments: records ordered by key, one record per key, so that a
//! point lookup is a binary search.

use vstd::prelude::*;
use crate::engine::{Entry, Record, entries, latest};

verus! {

/// Byte-lexicographic order on keys: `a` sorts strictly before `b`.
pub open spec fn lex_lt(a: Seq<u8>, b: Seq<u8>) -> bool
    decreases a.len(),
{
    if a.len() == 0 {
        b.len() > 0
    } else if b.len() == 0 {
        false
    } else if a[0] != b[0] {
        a[0] < b[0]
    } else {
        lex_lt(a.drop_first(), b.drop_first())
    }
}

pub proof fn lemma_lex_irreflexive(a: Seq<u8>)
    ensures
        !lex_lt(a, a),
    decreases a.len(),
{
    if a.len() > 0 {
        lemma_lex_irreflexive(a.drop_first());
    }
}

pub proof fn lemma_lex_transitive(a: Seq<u8>, b: Seq<u8>, c: Seq<u8>)
    requires
        lex_lt(a, b),
        lex_lt(b, c),
    ensures
        lex_lt(a, c),
    decreases a.len(),
{
    if a.len() > 0 && b.len() > 0 && c.len() > 0 && a[0] == b[0] && b[0] == c[0] {
        lemma_lex_transitive(a.drop_first(), b.drop_first(), c.drop_first());
    }
}

pub proof fn lemma_lex_total(a: Seq<u8>, b: Seq<u8>)
    requires
        a != b,
    ensures
        lex_lt(a, b) || lex_lt(b, a),
    decreases a.len(),
{
    if a.len() > 0 && b.len() > 0 && a[0] == b[0] {
        if a.drop_first() == b.drop_first() {
            assert(a =~= seq![a[0]] + a.drop_first());
            assert(b =~= seq![b[0]] + b.drop_first());
        }
        lemma_lex_total(a.drop_first(), b.drop_first());
    } else if a.len() == 0 && b.len() == 0 {
        assert(a =~= b);
    }
}

/// Compares two keys: negative, zero or positive as `a` sorts before, equals
/// or sorts after `b`.
pub fn compare_keys(a: &[u8], b: &[u8]) -> (r: i8)
    ensures
        r < 0 <==> lex_lt(a@, b@),
        r == 0 <==> a@ == b@,
        r > 0 <==> lex_lt(b@, a@),
{
    proof {
        lemma_lex_irreflexive(a@);
        if a@ != b@ {
            lemma_lex_total(a@, b@);
            if lex_lt(a@, b@) && lex_lt(b@, a@) {
                lemma_lex_transitive(a@, b@, a@);
            }
        }
    }
    let mut i: usize = 0;
    assert(a@.skip(0) =~= a@ && b@.skip(0) =~= b@);
    while i < a.len() && i < b.len()
        invariant
            i <= a@.len(),
            i <= b@.len(),
            a@.subrange(0, i as int) == b@.subrange(0, i as int),
            lex_lt(a@, b@) == lex_lt(a@.skip(i as int), b@.skip(i as int)),
            lex_lt(b@, a@) == lex_lt(b@.skip(i as int), a@.skip(i as int)),
        decreases a.len() - i,
    {
        assert(a@.skip(i as int)[0] == a@[i as int] && b@.skip(i as int)[0] == b@[i as int]);
        if a[i] < b[i] {
            return -1;
        }
        if a[i] > b[i] {
            return 1;
        }
        assert(a@.skip(i as int).drop_first() =~= a@.skip(i + 1));
        assert(b@.skip(i as int).drop_first() =~= b@.skip(i + 1));
        assert(a@.subrange(0, i + 1) =~= a@.subrange(0, i as int).push(a@[i as int]));
        assert(b@.subrange(0, i + 1) =~= b@.subrange(0, i as int).push(b@[i as int]));
        i = i + 1;
    }
    if a.len() == b.len() {
        assert(a@ =~= a@.subrange(0, i as int));
        assert(b@ =~= b@.subrange(0, i as int));
        0
    } else if i == a.len() {
        -1
    } else {
        1
    }
}

/// Keys strictly increasing: sorted, and each key at most once.
pub open spec fn sorted(s: Seq<Entry>) -> bool {
    forall|i: int, j: int| 0 <= i < j < s.len() ==> lex_lt(#[trigger] s[i].0, #[trigger] s[j].0)
}

/// A key that no record has has no newest record.
pub proof fn lemma_latest_absent(s: Seq<Entry>, k: Seq<u8>)
    requires
        forall|i: int| 0 <= i < s.len() ==> (#[trigger] s[i]).0 != k,
    ensures
        latest(s, k) is None,
    decreases s.len(),
{
    if s.len() > 0 {
        assert(s.last() == s[s.len() - 1]);
        assert forall|i: int| 0 <= i < s.drop_last().len() implies (#[trigger] s.drop_last()[i]).0 != k by {
            assert(s.drop_last()[i] == s[i]);
        }
        lemma_latest_absent(s.drop_last(), k);
    }
}

/// The newest record of a key that no later record has is the record itself.
pub proof fn lemma_latest_at(s: Seq<Entry>, i: int)
    requires
        0 <= i < s.len(),
        forall|j: int| i < j < s.len() ==> (#[trigger] s[j]).0 != s[i].0,
    ensures
        latest(s, s[i].0) == Some(s[i].1),
    decreases s.len(),
{
    if i < s.len() - 1 {
        assert(s.last() == s[s.len() - 1]);
        assert(s.drop_last()[i] == s[i]);
        assert forall|j: int| i < j < s.drop_last().len() implies (#[trigger] s.drop_last()[j]).0 != s.drop_last()[i].0 by {
            assert(s.drop_last()[j] == s[j]);
        }
        lemma_latest_at(s.drop_last(), i);
    }
}

/// In a sorted sequence the newest record of a key is its only record.
pub proof fn lemma_sorted_lookup(s: Seq<Entry>, k: Seq<u8>)
    requires
        sorted(s),
    ensures
        latest(s, k) is None <==> forall|i: int| 0 <= i < s.len() ==> (#[trigger] s[i]).0 != k,
        forall|i: int| 0 <= i < s.len() && (#[trigger] s[i]).0 == k ==> latest(s, k) == Some(s[i].1),
{
    assert forall|i: int| 0 <= i < s.len() && (#[trigger] s[i]).0 == k implies latest(s, k) == Some(s[i].1) by {
        assert forall|j: int| i < j < s.len() implies (#[trigger] s[j]).0 != s[i].0 by {
            assert(lex_lt(s[i].0, s[j].0));
            lemma_lex_irreflexive(s[i].0);
        }
        lemma_latest_at(s, i);
    }
    if forall|i: int| 0 <= i < s.len() ==> (#[trigger] s[i]).0 != k {
        lemma_latest_absent(s, k);
    }
}

/// Finds the record of `key` in a sorted segment by binary search.
pub fn find_sorted(seg: &Vec<Record>, key: &[u8]) -> (r: Option<Option<Vec<u8>>>)
    requires
        sorted(entries(seg@)),
    ensures
        match r {
            Some(v) => latest(entries(seg@), key@) == Some(crate::codec::opt_bytes(v)),
            None => latest(entries(seg@), key@) is None,
        },
{
    let ghost s = entries(seg@);
    let mut lo: usize = 0;
    let mut hi: usize = seg.len();
    while lo < hi
        invariant
            s == entries(seg@),
            sorted(s),
            lo <= hi <= seg@.len(),
            forall|j: int| 0 <= j < lo ==> lex_lt(#[trigger] s[j].0, key@),
            forall|j: int| hi <= j < s.len() ==> lex_lt(key@, #[trigger] s[j].0),
        decreases hi - lo,
    {
        let mid = lo + (hi - lo) / 2;
        let c = compare_keys(seg[mid].key.as_slice(), key);
        assert(s[mid as int] == seg@[mid as int]@);
        if c == 0 {
            proof {
                lemma_sorted_lookup(s, key@);
            }
            let found = match &seg[mid].value {
                Some(v) => Some(crate::engine::copy_bytes(v.as_slice())),
                None => None,
            };
            return Some(found);
        } else if c < 0 {
            proof {
                assert forall|j: int| 0 <= j < mid + 1 implies lex_lt(#[trigger] s[j].0, key@) by {
                    if j < mid {
                        lemma_lex_transitive(s[j].0, s[mid as int].0, key@);
                    }
                }
            }
            lo = mid + 1;
        } else {
            proof {
                assert forall|j: int| mid <= j < s.len() implies lex_lt(key@, #[trigger] s[j].0) by {
                    if j > mid {
                        lemma_lex_transitive(key@, s[mid as int].0, s[j].0);
                    }
                }
            }
            hi = mid;
        }
    }
    proof {
        assert forall|i: int| 0 <= i < s.len() implies (#[trigger] s[i]).0 != key@ by {
            lemma_lex_irreflexive(key@);
        }
        lemma_latest_absent(s, key@);
    }
    None
}

/// Whether a segment's keys strictly increase.
pub fn is_sorted(seg: &Vec<Record>) -> (r: bool)
    ensures
        r == sorted(entries(seg@)),
{
    let ghost s = entries(seg@);
    if seg.len() == 0 {
        return true;
    }
    let mut i: usize = 1;
    while i < seg.len()
        invariant
            s == entries(seg@),
            1 <= i <= seg@.len(),
            sorted(s.subrange(0, i as int)),
        decreases seg.len() - i,
    {
        let c = compare_keys(seg[i - 1].key.as_slice(), seg[i].key.as_slice());
        assert(s[i - 1] == seg@[i - 1]@ && s[i as int] == seg@[i as int]@);
        if c >= 0 {
            proof {
                assert(s.subrange(0, i as int)[i - 1] == s[i - 1]);
                if c == 0 {
                    lemma_lex_irreflexive(s[i as int].0);
                }
                assert(!lex_lt(s[i - 1].0, s[i as int].0)) by {
                    if c > 0 && lex_lt(s[i - 1].0, s[i as int].0) {
                        lemma_lex_transitive(s[i - 1].0, s[i as int].0, s[i - 1].0);
                        lemma_lex_irreflexive(s[i - 1].0);
                    }
                }
            }
            return false;
        }
        proof {
            let t = s.subrange(0, i + 1);
            assert forall|a: int, b: int| 0 <= a < b < t.len() implies lex_lt(#[trigger] t[a].0, #[trigger] t[b].0) by {
                assert(t[a] == s[a] && t[b] == s[b]);
                if b < i {
                    assert(s.subrange(0, i as int)[a] == s[a] && s.subrange(0, i as int)[b] == s[b]);
                } else if a < i - 1 {
                    assert(s.subrange(0, i as int)[a] == s[a] && s.subrange(0, i as int)[i - 1] == s[i - 1]);
                    lemma_lex_transitive(s[a].0, s[i - 1].0, s[b].0);
                }
            }
        }
        i = i + 1;
    }
    assert(s.subrange(0, i as int) =~= s);
    true
}

/// Replacing the record of a key in a sorted sequence keeps it sorted and
/// changes that key's lookup alone.
proof fn lemma_replace(s: Seq<Entry>, p: int, r: Entry, k: Seq<u8>)
    requires
        sorted(s),
        0 <= p < s.len(),
        s[p].0 == r.0,
    ensures
        sorted(s.update(p, r)),
        latest(s.update(p, r), k) == (if k == r.0 { Some(r.1) } else { latest(s, k) }),
{
    let t = s.update(p, r);
    assert forall|a: int, b: int| 0 <= a < b < t.len() implies lex_lt(#[trigger] t[a].0, #[trigger] t[b].0) by {
        assert(t[a].0 == s[a].0 && t[b].0 == s[b].0);
    }
    lemma_sorted_lookup(s, k);
    lemma_sorted_lookup(t, k);
    if k == r.0 {
        assert(t[p].0 == k);
    } else {
        assert forall|j: int| 0 <= j < s.len() implies ((#[trigger] s[j]).0 == k <==> t[j].0 == k) && (s[j].0 == k ==> s[j] == t[j]) by {}
        if exists|j: int| 0 <= j < s.len() && (#[trigger] s[j]).0 == k {
            let j = choose|j: int| 0 <= j < s.len() && (#[trigger] s[j]).0 == k;
            assert(t[j].0 == k);
        }
    }
}

/// Inserting a record where its key belongs in a sorted sequence that lacks
/// the key keeps it sorted and adds that key's lookup alone.
proof fn lemma_insert(s: Seq<Entry>, p: int, r: Entry, k: Seq<u8>)
    requires
        sorted(s),
        0 <= p <= s.len(),
        forall|j: int| 0 <= j < p ==> lex_lt(#[trigger] s[j].0, r.0),
        p < s.len() ==> lex_lt(r.0, s[p].0),
    ensures
        sorted(s.insert(p, r)),
        latest(s.insert(p, r), k) == (if k == r.0 { Some(r.1) } else { latest(s, k) }),
{
    let t = s.insert(p, r);
    assert forall|j: int| p <= j < s.len() implies lex_lt(r.0, #[trigger] s[j].0) by {
        if j > p {
            lemma_lex_transitive(r.0, s[p].0, s[j].0);
        }
    }
    assert forall|a: int, b: int| 0 <= a < b < t.len() implies lex_lt(#[trigger] t[a].0, #[trigger] t[b].0) by {
        if b < p {
            assert(t[a] == s[a] && t[b] == s[b]);
        } else if b == p {
            assert(t[a] == s[a] && t[b] == r);
        } else if a < p {
            assert(t[a] == s[a] && t[b] == s[b - 1]);
            lemma_lex_transitive(s[a].0, r.0, s[b - 1].0);
        } else if a == p {
            assert(t[a] == r && t[b] == s[b - 1]);
        } else {
            assert(t[a] == s[a - 1] && t[b] == s[b - 1]);
        }
    }
    lemma_sorted_lookup(s, k);
    lemma_sorted_lookup(t, k);
    if k == r.0 {
        assert(t[p] == r);
    } else {
        assert forall|j: int| 0 <= j < t.len() && (#[trigger] t[j]).0 == k implies exists|i: int| 0 <= i < s.len() && (#[trigger] s[i]) == t[j] by {
            if j < p {
                assert(s[j] == t[j]);
            } else {
                assert(j != p);
                assert(s[j - 1] == t[j]);
            }
        }
        if exists|j: int| 0 <= j < s.len() && (#[trigger] s[j]).0 == k {
            let j = choose|j: int| 0 <= j < s.len() && (#[trigger] s[j]).0 == k;
            if j < p {
                assert(t[j] == s[j]);
            } else {
                assert(t[j + 1] == s[j]);
            }
        }
    }
}

/// Puts a record into a sorted sequence: it replaces the record of its key,
/// or goes where its key belongs.
pub fn upsert_sorted(out: &mut Vec<Record>, rec: Record)
    requires
        sorted(entries(old(out)@)),
    ensures
        sorted(entries(final(out)@)),
        forall|k: Seq<u8>| #[trigger] latest(entries(final(out)@), k) == (if k == rec@.0 {
            Some(rec@.1)
        } else {
            latest(entries(old(out)@), k)
        }),
{
    let ghost s = entries(out@);
    let ghost r = rec@;
    let mut p: usize = 0;
    while p < out.len() && compare_keys(out[p].key.as_slice(), rec.key.as_slice()) < 0
        invariant
            s == entries(out@),
            rec@ == r,
            p <= out@.len(),
            forall|j: int| 0 <= j < p ==> lex_lt(#[trigger] s[j].0, r.0),
        decreases out.len() - p,
    {
        assert(s[p as int] == out@[p as int]@);
        p = p + 1;
    }
    let c: i8 = if p < out.len() {
        compare_keys(out[p].key.as_slice(), rec.key.as_slice())
    } else {
        1
    };
    if p < out.len() && c == 0 {
        proof {
            assert(s[p as int] == out@[p as int]@);
            assert forall|k: Seq<u8>| true implies #[trigger] latest(s.update(p as int, r), k) == (if k == r.0 { Some(r.1) } else { latest(s, k) }) by {
                lemma_replace(s, p as int, r, k);
            }
            lemma_replace(s, p as int, r, r.0);
        }
        out.set(p, rec);
        assert(entries(out@) =~= s.update(p as int, r));
    } else {
        proof {
            if p < out.len() {
                assert(s[p as int] == out@[p as int]@);
                lemma_lex_irreflexive(r.0);
                lemma_lex_total(s[p as int].0, r.0);
            }
            assert forall|k: Seq<u8>| true implies #[trigger] latest(s.insert(p as int, r), k) == (if k == r.0 { Some(r.1) } else { latest(s, k) }) by {
                lemma_insert(s, p as int, r, k);
            }
            lemma_insert(s, p as int, r, r.0);
        }
        out.insert(p, rec);
        assert(entries(out@) =~= s.insert(p as int, r));
    }
}

/// The records' lookups as one sorted sequence: each key's newest record,
/// tombstones included, ordered by key.
pub fn build_sorted(recs: &Vec<Record>) -> (r: Vec<Record>)
    ensures
        sorted(entries(r@)),
        forall|k: Seq<u8>| #[trigger] latest(entries(r@), k) == latest(entries(recs@), k),
{
    let mut out: Vec<Record> = Vec::new();
    let mut i: usize = 0;
    proof {
        assert forall|k: Seq<u8>| #[trigger] latest(entries(out@), k) == latest(entries(recs@.subrange(0, 0)), k) by {
            assert(entries(out@) =~= entries(recs@.subrange(0, 0)));
        }
    }
    while i < recs.len()
        invariant
            i <= recs@.len(),
            sorted(entries(out@)),
            forall|k: Seq<u8>| #[trigger] latest(entries(out@), k) == latest(entries(recs@.subrange(0, i as int)), k),
        decreases recs.len() - i,
    {
        proof {
            let pre = entries(recs@.subrange(0, i as int));
            let next = entries(recs@.subrange(0, i + 1));
            assert(next.drop_last() =~= pre);
            assert(next.last() == recs@[i as int]@);
        }
        let rec = recs[i].duplicate();
        assert(rec@ == recs@[i as int]@);
        upsert_sorted(&mut out, rec);
        i = i + 1;
    }
    assert(recs@.subrange(0, i as int) =~= recs@);
    out
}

} // verus!
