//! The content-addressed object store: immutable key/value storage keyed by
//! the digest of the stored bytes. Objects are created once and never deleted.

use vstd::prelude::*;
use crate::digest::{digest_of, sha1_hex};
use crate::errors::VcsError;

verus! {

struct ObjEntry {
    key: String,
    bytes: Vec<u8>,
}

/// The mapping an association list denotes: later entries win.
pub open spec fn assoc_map(s: Seq<(Seq<char>, Seq<u8>)>) -> Map<Seq<char>, Seq<u8>>
    decreases s.len(),
{
    if s.len() == 0 {
        Map::empty()
    } else {
        assoc_map(s.drop_last()).insert(s.last().0, s.last().1)
    }
}

/// True when no two entries share a key.
pub open spec fn distinct_keys(s: Seq<(Seq<char>, Seq<u8>)>) -> bool {
    forall|i: int, j: int| 0 <= i < j < s.len() ==> (#[trigger] s[i]).0 != (#[trigger] s[j]).0
}

/// With distinct keys, the denoted mapping holds exactly the listed entries.
pub proof fn lemma_assoc_map(s: Seq<(Seq<char>, Seq<u8>)>)
    requires
        distinct_keys(s),
    ensures
        forall|k: Seq<char>|
            assoc_map(s).contains_key(k) <==> exists|i: int|
                0 <= i < s.len() && (#[trigger] s[i]).0 == k,
        forall|i: int|
            0 <= i < s.len() ==> assoc_map(s).contains_key((#[trigger] s[i]).0) && assoc_map(
                s,
            )[s[i].0] == s[i].1,
    decreases s.len(),
{
    if s.len() > 0 {
        assert(s.drop_last().len() == s.len() - 1);
        assert forall|i: int, j: int| 0 <= i < j < s.drop_last().len() implies (
        #[trigger] s.drop_last()[i]).0 != (#[trigger] s.drop_last()[j]).0 by {
            assert(s.drop_last()[i] == s[i]);
            assert(s.drop_last()[j] == s[j]);
        }
        lemma_assoc_map(s.drop_last());
        assert forall|k: Seq<char>| assoc_map(s).contains_key(k) implies exists|i: int|
            0 <= i < s.len() && (#[trigger] s[i]).0 == k by {
            if k == s.last().0 {
                let w = s.len() - 1;
                assert(s[w] == s.last());
                assert(0 <= w < s.len() && s[w].0 == k);
            } else {
                assert(assoc_map(s.drop_last()).contains_key(k));
                let i = choose|i: int|
                    0 <= i < s.drop_last().len() && (#[trigger] s.drop_last()[i]).0 == k;
                assert(s.drop_last()[i] == s[i]);
                assert(0 <= i < s.len() && s[i].0 == k);
            }
        }
        assert forall|k: Seq<char>| (exists|i: int| 0 <= i < s.len() && (#[trigger] s[i]).0 == k)
            implies assoc_map(s).contains_key(k) by {
            let i = choose|i: int| 0 <= i < s.len() && (#[trigger] s[i]).0 == k;
            if i < s.len() - 1 {
                assert(s.drop_last()[i] == s[i]);
                assert(0 <= i < s.drop_last().len() && s.drop_last()[i].0 == k);
            } else {
                assert(s[i] == s.last());
            }
        }
        assert forall|i: int| 0 <= i < s.len() implies assoc_map(s).contains_key((
        #[trigger] s[i]).0) && assoc_map(s)[s[i].0] == s[i].1 by {
            if i < s.len() - 1 {
                assert(s.drop_last()[i] == s[i]);
                assert(s[i].0 != s.last().0);
            }
        }
    }
}

/// Content-addressed, immutable storage. `put` computes the address of the
/// bytes; `get` reads them back. No collision detection, no deletion: once
/// written, an object lives forever.
pub struct ObjectStore {
    entries: Vec<ObjEntry>,
}

impl ObjectStore {
    /// The stored entries, in insertion order.
    pub closed spec fn entries_seq(&self) -> Seq<(Seq<char>, Seq<u8>)> {
        Seq::new(self.entries@.len(), |i: int| (self.entries@[i].key@, self.entries@[i].bytes@))
    }

    /// The store as a mapping from digest to bytes.
    pub open spec fn as_map(&self) -> Map<Seq<char>, Seq<u8>> {
        assoc_map(self.entries_seq())
    }

    /// Well-formed: digests are unique, and every entry sits under the
    /// digest of its own bytes.
    pub open spec fn wf(&self) -> bool {
        &&& distinct_keys(self.entries_seq())
        &&& forall|i: int|
            0 <= i < self.entries_seq().len() ==> (#[trigger] self.entries_seq()[i]).0 == sha1_hex(
                self.entries_seq()[i].1,
            )
    }

    /// An empty store.
    pub fn new() -> (r: ObjectStore)
        ensures
            r.wf(),
            r.as_map() == Map::<Seq<char>, Seq<u8>>::empty(),
    {
        ObjectStore { entries: Vec::new() }
    }

    fn find(&self, hash: &String) -> (r: Option<usize>)
        ensures
            r matches Some(i) ==> i < self.entries_seq().len() && self.entries_seq()[i as int].0
                == hash@,
            r is None ==> forall|i: int|
                0 <= i < self.entries_seq().len() ==> (#[trigger] self.entries_seq()[i]).0 != hash@,
    {
        let mut i: usize = 0;
        while i < self.entries.len()
            invariant
                i <= self.entries@.len(),
                forall|j: int| 0 <= j < i ==> (#[trigger] self.entries_seq()[j]).0 != hash@,
            decreases self.entries@.len() - i,
        {
            if self.entries[i].key == *hash {
                assert(self.entries_seq()[i as int].0 == hash@);
                return Some(i);
            }
            assert(self.entries_seq()[i as int].0 != hash@);
            i = i + 1;
        }
        None
    }

    /// Whether an object with this digest is stored.
    pub fn contains(&self, hash: &String) -> (r: bool)
        requires
            self.wf(),
        ensures
            r == self.as_map().contains_key(hash@),
    {
        proof {
            lemma_assoc_map(self.entries_seq());
        }
        self.find(hash).is_some()
    }

    /// Stores `content` under `hash`, which must be its digest. Writing a
    /// digest that is already present replaces the entry: writing the same
    /// bytes twice is a no-op in effect.
    pub fn store_object(&mut self, hash: String, content: Vec<u8>)
        requires
            old(self).wf(),
            hash@ == sha1_hex(content@),
        ensures
            final(self).wf(),
            final(self).as_map() == old(self).as_map().insert(hash@, content@),
    {
        proof {
            lemma_assoc_map(self.entries_seq());
        }
        let found = self.find(&hash);
        let ghost old_seq = self.entries_seq();
        match found {
            Some(i) => {
                let ghost kept = hash@;
                let ghost val = content@;
                self.entries.remove(i);
                proof {
                    assert(self.entries_seq() =~= old_seq.remove(i as int));
                    lemma_remove_distinct(old_seq, i as int);
                }
                let ghost mid_seq = self.entries_seq();
                self.entries.push(ObjEntry { key: hash, bytes: content });
                proof {
                    assert(self.entries_seq() =~= mid_seq.push((kept, val)));
                    lemma_push_new_key(mid_seq, kept, val, old_seq, i as int);
                    lemma_remove_then_insert(old_seq, i as int, kept, val);
                    assert forall|j: int| 0 <= j < self.entries_seq().len() implies (
                    #[trigger] self.entries_seq()[j]).0 == sha1_hex(self.entries_seq()[j].1) by {
                        if j < self.entries_seq().len() - 1 {
                            let j0 = if j < i { j } else { j + 1 };
                            assert(self.entries_seq()[j] == old_seq[j0]);
                        }
                    }
                }
            },
            None => {
                self.entries.push(ObjEntry { key: hash, bytes: content });
                proof {
                    assert(self.entries_seq() =~= old_seq.push((hash@, content@)));
                    assert(self.entries_seq().drop_last() =~= old_seq);
                    assert forall|a: int, b: int|
                        0 <= a < b < self.entries_seq().len() implies (
                    #[trigger] self.entries_seq()[a]).0 != (#[trigger] self.entries_seq()[b]).0 by {
                        if b < self.entries_seq().len() - 1 {
                            assert(self.entries_seq()[a] == old_seq[a]);
                            assert(self.entries_seq()[b] == old_seq[b]);
                        } else {
                            assert(self.entries_seq()[a] == old_seq[a]);
                        }
                    }
                    assert forall|j: int| 0 <= j < self.entries_seq().len() implies (
                    #[trigger] self.entries_seq()[j]).0 == sha1_hex(self.entries_seq()[j].1) by {
                        if j < self.entries_seq().len() - 1 {
                            assert(self.entries_seq()[j] == old_seq[j]);
                        }
                    }
                }
            },
        }
    }

    /// Computes the digest of `content`, stores the bytes under it, and
    /// returns the digest. Idempotent: the same bytes land under the same
    /// address, and writing them again changes nothing.
    pub fn put(&mut self, content: Vec<u8>) -> (r: String)
        requires
            old(self).wf(),
        ensures
            final(self).wf(),
            r@ == sha1_hex(content@),
            final(self).as_map() == old(self).as_map().insert(sha1_hex(content@), content@),
    {
        let hash = digest_of(content.as_slice());
        let out = hash.clone();
        self.store_object(hash, content);
        out
    }

    /// The two-level location of an object on disk: the first two digest
    /// characters name the bucket directory, the rest name the entry.
    pub fn object_location(hash: &str) -> (r: (String, String))
        requires
            hash@.len() >= 2,
        ensures
            r.0@ == hash@.subrange(0, 2),
            r.1@ == hash@.subrange(2, hash@.len() as int),
            r.0@ + r.1@ == hash@,
    {
        let n = hash.unicode_len();
        let bucket = hash.substring_char(0, 2);
        let rest = hash.substring_char(2, n);
        proof {
            assert(hash@.subrange(0, 2) + hash@.subrange(2, hash@.len() as int) =~= hash@);
        }
        (String::from_str(bucket), String::from_str(rest))
    }

    /// The number of stored objects.
    pub fn object_count(&self) -> (r: usize)
        ensures
            r == self.entries_seq().len(),
    {
        self.entries.len()
    }

    /// The digest and bytes of the object at a position, in insertion order;
    /// for persisting the store.
    pub fn object_at(&self, i: usize) -> (r: (&String, &Vec<u8>))
        requires
            i < self.entries_seq().len(),
        ensures
            r.0@ == self.entries_seq()[i as int].0,
            r.1@ == self.entries_seq()[i as int].1,
    {
        (&self.entries[i].key, &self.entries[i].bytes)
    }

    /// Reads the bytes stored under `hash`; fails with `ObjectNotFound` when
    /// the digest has no entry.
    pub fn read_object(&self, hash: &String) -> (r: Result<Vec<u8>, VcsError>)
        requires
            self.wf(),
        ensures
            r matches Ok(b) ==> self.as_map().contains_key(hash@) && b@ == self.as_map()[hash@],
            r matches Err(e) ==> !self.as_map().contains_key(hash@) && (e matches
                VcsError::ObjectNotFound(h) && h@ == hash@),
    {
        proof {
            lemma_assoc_map(self.entries_seq());
        }
        match self.find(hash) {
            Some(i) => Ok(vstd::slice::slice_to_vec(self.entries[i].bytes.as_slice())),
            None => Err(VcsError::ObjectNotFound(hash.clone())),
        }
    }
}

proof fn lemma_remove_distinct(s: Seq<(Seq<char>, Seq<u8>)>, i: int)
    requires
        distinct_keys(s),
        0 <= i < s.len(),
    ensures
        distinct_keys(s.remove(i)),
        forall|j: int|
            0 <= j < s.remove(i).len() ==> (#[trigger] s.remove(i)[j]).0 != s[i].0,
{
    let t = s.remove(i);
    assert forall|a: int, b: int| 0 <= a < b < t.len() implies (#[trigger] t[a]).0 != (
    #[trigger] t[b]).0 by {
        let a0 = if a < i { a } else { a + 1 };
        let b0 = if b < i { b } else { b + 1 };
        assert(t[a] == s[a0]);
        assert(t[b] == s[b0]);
    }
    assert forall|j: int| 0 <= j < t.len() implies (#[trigger] t[j]).0 != s[i].0 by {
        let j0 = if j < i { j } else { j + 1 };
        assert(t[j] == s[j0]);
    }
}

/// Reading back what `put` stored yields the stored bytes, and a second
/// `put` of the same bytes lands on the same address and leaves the store
/// exactly as the first one did.
pub proof fn lemma_put_get_round_trip(m: Map<Seq<char>, Seq<u8>>, b: Seq<u8>)
    ensures
        m.insert(sha1_hex(b), b).contains_key(sha1_hex(b)),
        m.insert(sha1_hex(b), b)[sha1_hex(b)] == b,
        m.insert(sha1_hex(b), b).insert(sha1_hex(b), b) == m.insert(sha1_hex(b), b),
{
    assert(m.insert(sha1_hex(b), b).insert(sha1_hex(b), b) =~= m.insert(sha1_hex(b), b));
}

proof fn lemma_remove_then_insert(orig: Seq<(Seq<char>, Seq<u8>)>, i: int, k: Seq<char>, v: Seq<u8>)
    requires
        distinct_keys(orig),
        0 <= i < orig.len(),
        orig[i].0 == k,
    ensures
        assoc_map(orig.remove(i).push((k, v))) == assoc_map(orig).insert(k, v),
{
    let mid = orig.remove(i);
    lemma_remove_distinct(orig, i);
    lemma_assoc_map(orig);
    lemma_assoc_map(mid);
    assert(mid.push((k, v)).drop_last() =~= mid);
    assert(assoc_map(mid.push((k, v))) == assoc_map(mid).insert(k, v));
    let lhs = assoc_map(mid).insert(k, v);
    let rhs = assoc_map(orig).insert(k, v);
    assert forall|k2: Seq<char>| #[trigger] rhs.contains_key(k2) implies lhs.contains_key(k2)
        && lhs[k2] == rhs[k2] by {
        if k2 != k {
            let j = choose|j: int| 0 <= j < orig.len() && (#[trigger] orig[j]).0 == k2;
            assert(j != i);
            let j1 = if j < i { j } else { j - 1 };
            assert(mid[j1] == orig[j]);
            assert(assoc_map(mid).contains_key(k2));
            assert(assoc_map(mid)[k2] == mid[j1].1);
            assert(assoc_map(orig)[k2] == orig[j].1);
        }
    }
    assert forall|k2: Seq<char>| #[trigger] lhs.contains_key(k2) implies rhs.contains_key(k2) by {
        if k2 != k {
            let j1 = choose|j1: int| 0 <= j1 < mid.len() && (#[trigger] mid[j1]).0 == k2;
            let j = if j1 < i { j1 } else { j1 + 1 };
            assert(orig[j] == mid[j1]);
            assert(assoc_map(orig).contains_key(k2));
        }
    }
    assert(lhs =~= rhs);
}

proof fn lemma_push_new_key(
    mid: Seq<(Seq<char>, Seq<u8>)>,
    k: Seq<char>,
    v: Seq<u8>,
    orig: Seq<(Seq<char>, Seq<u8>)>,
    i: int,
)
    requires
        0 <= i < orig.len(),
        mid == orig.remove(i),
        distinct_keys(orig),
        orig[i].0 == k,
    ensures
        distinct_keys(mid.push((k, v))),
{
    lemma_remove_distinct(orig, i);
    let t = mid.push((k, v));
    assert forall|a: int, b: int| 0 <= a < b < t.len() implies (#[trigger] t[a]).0 != (
    #[trigger] t[b]).0 by {
        if b < t.len() - 1 {
            assert(t[a] == mid[a]);
            assert(t[b] == mid[b]);
        } else {
            assert(t[a] == mid[a]);
            assert(mid[a].0 != k);
        }
    }
}

} // verus!
