//! Cache gateway protocol: key derivation, the skip-vs-analyze decision,
//! and a durable key/value store of fingerprint bytes.
//!
//! A cache key is a pure function of the file path alone (no timestamp or
//! size component), so the path-to-key mapping is stable across runs and
//! injective. Entries are written once on the first successful analysis of
//! a path and are never mutated or deleted afterwards.

use vstd::prelude::*;
use vstd::string::StringExecFns;

verus! {

/// The fixed prefix that every cache key carries in front of the file path.
pub open spec fn key_prefix() -> Seq<char> {
    "bliss:"@
}

/// Cache key for a file path: the fixed prefix followed by the path verbatim.
pub open spec fn key_of(path: Seq<char>) -> Seq<char> {
    key_prefix() + path
}

/// Derives the cache key under which a file's fingerprint is stored.
pub fn derive_key(path: &str) -> (key: String)
    ensures
        key@ == key_of(path@),
{
    let mut key = "bliss:".to_owned();
    key.append(path);
    key
}

/// Key derivation is deterministic (it is a function of the path alone) and
/// injective: two paths share a key exactly when they are the same path.
pub proof fn lemma_key_injective(path1: Seq<char>, path2: Seq<char>)
    ensures
        (key_of(path1) == key_of(path2)) <==> (path1 == path2),
{
    if key_of(path1) == key_of(path2) {
        let n = key_prefix().len() as int;
        assert(key_of(path1).skip(n) =~= path1);
        assert(key_of(path2).skip(n) =~= path2);
    }
}

/// A failure reported by the durable key/value store on a read or a write.
pub struct KvError {
    pub detail: String,
}

/// Skip-vs-analyze decision from a cache read: only a confirmed hit skips
/// the file. A miss and a transient read failure are indistinguishable to
/// the caller and both proceed to analysis, favoring availability over
/// avoiding redundant work.
pub fn skip_after_read(read: &Result<Option<Vec<u8>>, KvError>) -> (skip: bool)
    ensures
        skip == (read matches Ok(Some(_))),
{
    match read {
        Ok(Some(_)) => true,
        _ => false,
    }
}

/// A durable key/value store of serialized fingerprints, seen in contracts
/// as a map from key to stored bytes. Later writes win, though the pipeline
/// never writes a key twice (it checks presence first).
pub struct CacheStore {
    entries: Vec<(String, Vec<u8>)>,
}

/// The map that a sequence of writes, applied in order, builds up.
pub open spec fn entries_map(s: Seq<(String, Vec<u8>)>) -> Map<Seq<char>, Seq<u8>>
    decreases s.len(),
{
    if s.len() == 0 {
        Map::empty()
    } else {
        entries_map(s.drop_last()).insert(s.last().0@, s.last().1@)
    }
}

impl View for CacheStore {
    type V = Map<Seq<char>, Seq<u8>>;

    closed spec fn view(&self) -> Map<Seq<char>, Seq<u8>> {
        entries_map(self.entries@)
    }
}

impl CacheStore {
    /// An empty store.
    pub fn new() -> (store: Self)
        ensures
            store@ == Map::<Seq<char>, Seq<u8>>::empty(),
    {
        CacheStore { entries: Vec::new() }
    }

    /// Whether a fingerprint is stored under this key.
    pub fn contains(&self, key: &String) -> (present: bool)
        ensures
            present == self@.contains_key(key@),
    {
        let mut i: usize = self.entries.len();
        proof {
            assert(self.entries@.take(i as int) =~= self.entries@);
        }
        while i > 0
            invariant
                i <= self.entries@.len(),
                self@.contains_key(key@) == entries_map(self.entries@.take(i as int)).contains_key(
                    key@,
                ),
            decreases i,
        {
            proof {
                lemma_entries_map_take_step(self.entries@, i as int);
            }
            i = i - 1;
            if self.entries[i].0.eq(key) {
                return true;
            }
        }
        proof {
            assert(self.entries@.take(0) =~= Seq::<(String, Vec<u8>)>::empty());
        }
        false
    }

    /// The bytes stored under this key, when the key is present.
    pub fn get(&self, key: &String) -> (found: Option<&Vec<u8>>)
        ensures
            match found {
                Some(value) => self@.contains_key(key@) && value@ == self@[key@],
                None => !self@.contains_key(key@),
            },
    {
        let mut i: usize = self.entries.len();
        proof {
            assert(self.entries@.take(i as int) =~= self.entries@);
        }
        while i > 0
            invariant
                i <= self.entries@.len(),
                self@.contains_key(key@) == entries_map(self.entries@.take(i as int)).contains_key(
                    key@,
                ),
                self@.contains_key(key@) ==> self@[key@] == entries_map(
                    self.entries@.take(i as int),
                )[key@],
            decreases i,
        {
            proof {
                lemma_entries_map_take_step(self.entries@, i as int);
            }
            i = i - 1;
            if self.entries[i].0.eq(key) {
                return Some(&self.entries[i].1);
            }
        }
        proof {
            assert(self.entries@.take(0) =~= Seq::<(String, Vec<u8>)>::empty());
        }
        None
    }

    /// Stores bytes under a key. The pipeline only calls this for a key it
    /// has just found absent, so an existing entry is never overwritten.
    pub fn put(&mut self, key: String, value: Vec<u8>)
        ensures
            final(self)@ == old(self)@.insert(key@, value@),
    {
        let ghost before = self.entries@;
        let ghost k = key@;
        let ghost v = value@;
        self.entries.push((key, value));
        proof {
            assert(self.entries@.drop_last() =~= before);
            assert(self.entries@.last().0@ == k);
            assert(self.entries@.last().1@ == v);
        }
    }
}

/// Splitting the write sequence one entry before a prefix boundary: the map
/// of the longer prefix is the map of the shorter one with that entry's
/// write applied.
proof fn lemma_entries_map_take_step(s: Seq<(String, Vec<u8>)>, i: int)
    requires
        0 < i <= s.len(),
    ensures
        entries_map(s.take(i)) == entries_map(s.take(i - 1)).insert(s[i - 1].0@, s[i - 1].1@),
{
    assert(s.take(i).drop_last() =~= s.take(i - 1));
    assert(s.take(i).last() == s[i - 1]);
}

} // verus!
