//! The key-value store: text keys and values over the codec and the engine.

use vstd::prelude::*;
use vstd::string::StringSliceAdditionalSpecFns;
use vstd::utf8::{decode_utf8, encode_utf8, valid_utf8, encode_utf8_decode_utf8, encode_utf8_valid_utf8};
use crate::codec::{compressible_len, decode, decoded, encode, encoded};
use crate::engine::{Engine, Entry, Record, StorageError, contents, entries, flatten, latest, overlay};
use crate::segment::sorted;
use crate::wal::{concat, parse_log};

verus! {

/// What lossy UTF-8 conversion makes of bytes.
pub uninterp spec fn utf8_lossy(b: Seq<u8>) -> Seq<char>;

/// Relies on `String::from_utf8_lossy`: valid UTF-8 comes back as the text
/// it encodes; each invalid sequence becomes U+FFFD.
#[verifier::external_body]
fn lossy_string(b: &[u8]) -> (r: String)
    ensures
        r@ == utf8_lossy(b@),
        valid_utf8(b@) ==> r@ == decode_utf8(b@),
{
    String::from_utf8_lossy(b).into_owned()
}

/// The text shown for a stored value's bytes.
pub open spec fn shown(b: Seq<u8>) -> Seq<char> {
    if valid_utf8(b) {
        decode_utf8(b)
    } else {
        utf8_lossy(b)
    }
}

/// Turns bytes into text, substituting U+FFFD for invalid sequences; never fails.
pub fn value_text(b: &[u8]) -> (r: String)
    ensures
        r@ == shown(b@),
{
    lossy_string(b)
}

/// The records that a list of key/value pairs stores: each value encoded.
pub open spec fn stored_pairs(pairs: Seq<(String, String)>) -> Seq<Entry> {
    pairs.map_values(|p: (String, String)| (encode_utf8(p.0@), Some(encoded(encode_utf8(p.1@)))))
}

/// The same pairs as raw bytes.
pub open spec fn raw_pairs(pairs: Seq<(String, String)>) -> Seq<Entry> {
    pairs.map_values(|p: (String, String)| (encode_utf8(p.0@), Some(encode_utf8(p.1@))))
}

/// The raw contents behind stored contents: every stored value decoded.
pub open spec fn decoded_map(m: Map<Seq<u8>, Seq<u8>>) -> Map<Seq<u8>, Seq<u8>> {
    Map::new(|k: Seq<u8>| m.contains_key(k), |k: Seq<u8>| decoded(m[k]))
}

pub open spec fn all_compressible(pairs: Seq<(String, String)>) -> bool {
    forall|i: int| 0 <= i < pairs.len() ==> compressible_len(#[trigger] encode_utf8(pairs[i].1@).len())
}

/// Stored records whose values decode to the raw ones leave, once decoded,
/// what the raw records leave.
proof fn lemma_latest_decoded(st: Seq<Entry>, raw: Seq<Entry>, k: Seq<u8>)
    requires
        st.len() == raw.len(),
        forall|i: int| 0 <= i < st.len() ==> (#[trigger] st[i]).0 == raw[i].0,
        forall|i: int|
            0 <= i < st.len() ==> (#[trigger] st[i]).1 is Some && raw[i].1 is Some && decoded(
                st[i].1->Some_0,
            ) == raw[i].1->Some_0,
    ensures
        latest(st, k) is Some <==> latest(raw, k) is Some,
        latest(raw, k) matches Some(o) ==> o is Some,
        latest(st, k) matches Some(o) ==> o is Some && decoded(o->Some_0) == latest(raw, k)->Some_0->Some_0,
    decreases st.len(),
{
    if st.len() > 0 {
        lemma_latest_decoded(st.drop_last(), raw.drop_last(), k);
    }
}

pub struct KVStore {
    engine: Engine,
}

impl View for KVStore {
    type V = Map<Seq<u8>, Seq<u8>>;

    /// Each key's raw value: what the engine holds, decoded.
    open spec fn view(&self) -> Map<Seq<u8>, Seq<u8>> {
        decoded_map(self.stored())
    }
}

impl KVStore {
    /// What the engine holds for each key: the encoded values.
    pub closed spec fn stored(&self) -> Map<Seq<u8>, Seq<u8>> {
        self.engine@
    }

    pub closed spec fn wf(&self) -> bool {
        self.engine.wf()
    }

    /// Opens a store over its segments, oldest first, and the bytes of its
    /// write-ahead log; a corrupt log is refused.
    pub fn open(segments: Vec<Vec<Record>>, log: &[u8]) -> (r: Result<KVStore, StorageError>)
        ensures
            r is Err <==> (parse_log(log@) is None || exists|i: int|
                0 <= i < segments@.len() && !sorted(entries(#[trigger] segments@[i]@))),
            r is Err ==> r == Err::<KVStore, StorageError>(StorageError::CorruptLog),
            r matches Ok(s) ==> s.wf() && s.stored() == contents(flatten(segments@) + concat(parse_log(log@)->Some_0)),
    {
        match Engine::recover(segments, log) {
            Ok(engine) => Ok(KVStore { engine }),
            Err(e) => Err(e),
        }
    }

    /// An empty store.
    pub fn new() -> (r: KVStore)
        ensures
            r.wf(),
            r@ == Map::<Seq<u8>, Seq<u8>>::empty(),
    {
        let r = KVStore { engine: Engine::new() };
        assert(r@ =~= Map::<Seq<u8>, Seq<u8>>::empty());
        r
    }

    pub fn engine(&self) -> (r: &Engine)
        ensures
            r@ == self.stored(),
    {
        &self.engine
    }

    /// Stores the encoded `value` under `key`; an empty key is refused.
    pub fn set(&mut self, key: &str, value: &str) -> (r: Result<(), StorageError>)
        requires
            old(self).wf(),
        ensures
            final(self).wf(),
            key@.len() == 0 <==> r is Err,
            r is Err ==> r == Err::<(), StorageError>(StorageError::InvalidKey),
            r is Err ==> *final(self) == *old(self),
            r is Ok ==> final(self).stored() == old(self).stored().insert(
                key.spec_bytes(),
                encoded(value.spec_bytes()),
            ),
            r is Ok && compressible_len(value.spec_bytes().len()) ==> final(self)@ == old(self)@.insert(
                key.spec_bytes(),
                value.spec_bytes(),
            ),
    {
        proof {
            lemma_encode_empty(key@);
        }
        let compressed = encode(value.as_bytes());
        let r = self.engine.put(key.as_bytes(), compressed.as_slice());
        proof {
            if r is Ok {
                assert(decoded_map(self.engine@) =~= decoded_map(old(self).engine@).insert(
                    key.spec_bytes(), decoded(encoded(value.spec_bytes()))));
            }
        }
        r
    }

    /// The text of `key`'s value, `None` where it is absent; an empty key is refused.
    pub fn get(&self, key: &str) -> (r: Result<Option<String>, StorageError>)
        requires
            self.wf(),
        ensures
            key@.len() == 0 <==> r is Err,
            r is Err ==> r == Err::<Option<String>, StorageError>(StorageError::InvalidKey),
            r matches Ok(o) ==> (o is Some <==> self@.contains_key(key.spec_bytes())),
            r matches Ok(Some(s)) ==> s@ == shown(self@[key.spec_bytes()]),
    {
        proof {
            lemma_encode_empty(key@);
        }
        match self.engine.get(key.as_bytes()) {
            Err(e) => Err(e),
            Ok(None) => Ok(None),
            Ok(Some(stored)) => {
                let raw = decode(stored.as_slice());
                Ok(Some(value_text(raw.as_slice())))
            },
        }
    }

    /// Writes a tombstone for `key`; an empty key is refused. An absent key
    /// is no error and the contents stay as they were.
    pub fn delete(&mut self, key: &str) -> (r: Result<(), StorageError>)
        requires
            old(self).wf(),
        ensures
            final(self).wf(),
            key@.len() == 0 <==> r is Err,
            r is Err ==> r == Err::<(), StorageError>(StorageError::InvalidKey),
            r is Err ==> *final(self) == *old(self),
            r is Ok ==> final(self).stored() == old(self).stored().remove(key.spec_bytes()),
            r is Ok ==> final(self)@ == old(self)@.remove(key.spec_bytes()),
    {
        proof {
            lemma_encode_empty(key@);
        }
        let r = self.engine.delete(key.as_bytes());
        if r.is_ok() {
            assert(decoded_map(self.engine@) =~= decoded_map(old(self).engine@).remove(key.spec_bytes()));
        }
        r
    }

    /// Encodes each value and writes all pairs as one atomic transaction, in
    /// order; a pair with an empty key refuses the whole batch.
    pub fn batch_set(&mut self, pairs: &Vec<(String, String)>) -> (r: Result<(), StorageError>)
        requires
            old(self).wf(),
        ensures
            final(self).wf(),
            r is Err <==> exists|i: int| 0 <= i < pairs@.len() && (#[trigger] pairs@[i]).0@.len() == 0,
            r is Err ==> r == Err::<(), StorageError>(StorageError::InvalidKey) && *final(self) == *old(self),
            r is Ok ==> final(self).stored() == overlay(old(self).stored(), stored_pairs(pairs@)),
            r is Ok && all_compressible(pairs@) ==> final(self)@ == overlay(old(self)@, raw_pairs(pairs@)),
    {
        let mut batch: Vec<Record> = Vec::new();
        let mut i: usize = 0;
        while i < pairs.len()
            invariant
                i <= pairs@.len(),
                batch@.len() == i,
                forall|j: int| 0 <= j < i ==> (#[trigger] batch@[j])@ == stored_pairs(pairs@)[j],
                forall|j: int|
                    0 <= j < i && compressible_len(encode_utf8(pairs@[j].1@).len()) ==> decoded(
                        (#[trigger] batch@[j])@.1->Some_0,
                    ) == encode_utf8(pairs@[j].1@),
            decreases pairs.len() - i,
        {
            let compressed = encode(pairs[i].1.as_str().as_bytes());
            batch.push(Record::put(pairs[i].0.as_str().as_bytes(), compressed.as_slice()));
            i = i + 1;
        }
        let ghost b0 = batch@;
        assert(entries(b0) =~= stored_pairs(pairs@));
        proof {
            assert forall|j: int| 0 <= j < b0.len() implies (#[trigger] b0[j]).key@.len() == 0 <==> pairs@[j].0@.len() == 0 by {
                lemma_encode_empty(pairs@[j].0@);
            }
        }
        let r = self.engine.write_batch(batch);
        proof {
            if r is Err {
                let i = choose|i: int| 0 <= i < b0.len() && #[trigger] b0[i].key@.len() == 0;
                assert(pairs@[i].0@.len() == 0);
            } else {
                assert forall|i: int| 0 <= i < pairs@.len() implies (#[trigger] pairs@[i]).0@.len() != 0 by {
                    if pairs@[i].0@.len() == 0 {
                        assert(b0[i].key@.len() == 0);
                    }
                }
            }
        }
        proof {
            if r is Ok && all_compressible(pairs@) {
                let st = stored_pairs(pairs@);
                let raw = raw_pairs(pairs@);
                assert forall|i: int| 0 <= i < st.len() implies (#[trigger] st[i]).0 == raw[i].0 && st[i].1 is Some && raw[i].1 is Some && decoded(
                    st[i].1->Some_0) == raw[i].1->Some_0 by {
                    assert(b0[i]@ == st[i]);
                    assert(compressible_len(encode_utf8(pairs@[i].1@).len()));
                }
                assert forall|k: Seq<u8>| true implies (latest(st, k) is Some <==> latest(raw, k) is Some)
                    && (latest(st, k) matches Some(o) ==> o is Some && decoded(o->Some_0) == latest(raw, k)->Some_0->Some_0) by {
                    lemma_latest_decoded(st, raw, k);
                }
                assert(self.engine@ == overlay(old(self).engine@, st));
                assert forall|k: Seq<u8>| #[trigger] decoded_map(self.engine@).contains_key(k) == overlay(decoded_map(old(self).engine@), raw).contains_key(k) by {
                    lemma_latest_decoded(st, raw, k);
                }
                assert forall|k: Seq<u8>| decoded_map(self.engine@).contains_key(k) implies #[trigger] decoded_map(self.engine@)[k] == overlay(decoded_map(old(self).engine@), raw)[k] by {
                    lemma_latest_decoded(st, raw, k);
                }
                assert(decoded_map(self.engine@) =~= overlay(decoded_map(old(self).engine@), raw));
            }
        }
        r
    }
}

/// A text is empty exactly when its UTF-8 bytes are.
proof fn lemma_encode_empty(c: Seq<char>)
    ensures
        c.len() == 0 <==> encode_utf8(c).len() == 0,
{
    broadcast use encode_utf8_decode_utf8;
    if c.len() == 0 {
        assert(c =~= Seq::<char>::empty());
        assert(encode_utf8(c) =~= Seq::<u8>::empty());
    }
    if encode_utf8(c).len() == 0 {
        assert(encode_utf8(c) =~= Seq::<u8>::empty());
        assert(decode_utf8(encode_utf8(c)) =~= Seq::<char>::empty());
    }
}

/// A flattened key/value list of odd length: its last key has no value.
#[derive(Debug, Clone, Copy, PartialEq, Eq, Structural)]
pub struct BatchContractError;

/// Pairs up a flattened, alternating key/value list; an odd length is refused.
pub fn pair_up(flat: &Vec<String>) -> (r: Result<Vec<(String, String)>, BatchContractError>)
    ensures
        r is Err <==> flat@.len() % 2 == 1,
        r matches Ok(pairs) ==> pairs@.len() * 2 == flat@.len() && forall|i: int|
            0 <= i < pairs@.len() ==> (#[trigger] pairs@[i]).0@ == flat@[2 * i]@ && pairs@[i].1@
                == flat@[2 * i + 1]@,
{
    if flat.len() % 2 == 1 {
        return Err(BatchContractError);
    }
    let mut pairs: Vec<(String, String)> = Vec::new();
    let mut i: usize = 0;
    while i < flat.len() / 2
        invariant
            flat@.len() % 2 == 0,
            i <= flat@.len() / 2,
            pairs@.len() == i,
            forall|j: int|
                0 <= j < i ==> (#[trigger] pairs@[j]).0@ == flat@[2 * j]@ && pairs@[j].1@ == flat@[2
                    * j + 1]@,
        decreases flat.len() / 2 - i,
    {
        let k = flat[2 * i].clone();
        let v = flat[2 * i + 1].clone();
        pairs.push((k, v));
        i = i + 1;
    }
    Ok(pairs)
}

/// Reading a key after storing a text under it gives the text back: the
/// stored bytes are the text's UTF-8, which is shown unchanged.
pub proof fn lemma_get_after_set(m: Map<Seq<u8>, Seq<u8>>, key: Seq<u8>, value: Seq<char>)
    ensures
        m.insert(key, encode_utf8(value)).contains_key(key),
        shown(m.insert(key, encode_utf8(value))[key]) == value,
{
    broadcast use encode_utf8_valid_utf8, encode_utf8_decode_utf8;
}

/// After a delete the key is absent, whatever was stored under it before.
pub proof fn lemma_get_after_delete(m: Map<Seq<u8>, Seq<u8>>, key: Seq<u8>, value: Seq<u8>)
    ensures
        !m.remove(key).contains_key(key),
        !m.insert(key, value).remove(key).contains_key(key),
{
}

/// Deleting an absent key leaves the contents as they were, and deleting
/// twice is deleting once.
pub proof fn lemma_delete_absent(m: Map<Seq<u8>, Seq<u8>>, key: Seq<u8>)
    ensures
        !m.contains_key(key) ==> m.remove(key) == m,
        m.remove(key).remove(key) == m.remove(key),
{
    assert(!m.contains_key(key) ==> m.remove(key) =~= m);
    assert(m.remove(key).remove(key) =~= m.remove(key));
}

/// Of two writes to one key the later wins.
pub proof fn lemma_last_writer_wins(m: Map<Seq<u8>, Seq<u8>>, key: Seq<u8>, first: Seq<u8>, second: Seq<u8>)
    ensures
        m.insert(key, first).insert(key, second) == m.insert(key, second),
{
    assert(m.insert(key, first).insert(key, second) =~= m.insert(key, second));
}

} // verus!
