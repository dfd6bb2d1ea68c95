//! The sibling record: a map from a node's digest to the bytes of the two
//! sibling digests that were hashed together into that node's parent.

use vstd::prelude::*;
use std::collections::HashMap;
use crate::digest::digest_eq;

verus! {

/// Length of the sibling bytes of a node: two digests side by side.
pub const SIBLINGS_LEN: usize = 64;

broadcast use vstd::std_specs::hash::group_hash_axioms;

/// The bucket a digest falls in: its first eight bytes, read big-endian.
pub open spec fn bucket_of(d: Seq<u8>) -> u64 {
    (d[0] as int * 0x100_0000_0000_0000 + d[1] as int * 0x1_0000_0000_0000
        + d[2] as int * 0x100_0000_0000 + d[3] as int * 0x1_0000_0000
        + d[4] as int * 0x100_0000 + d[5] as int * 0x1_0000 + d[6] as int * 0x100
        + d[7] as int) as u64
}

fn bucket_key(node: &[u8; 32]) -> (k: u64)
    ensures
        k == bucket_of(node@),
{
    (node[0] as u64) * 0x100_0000_0000_0000 + (node[1] as u64) * 0x1_0000_0000_0000
        + (node[2] as u64) * 0x100_0000_0000 + (node[3] as u64) * 0x1_0000_0000
        + (node[4] as u64) * 0x100_0000 + (node[5] as u64) * 0x1_0000
        + (node[6] as u64) * 0x100 + (node[7] as u64)
}

/// One recorded node: its digest and its sibling bytes.
struct Entry {
    node: [u8; 32],
    siblings: Vec<u8>,
}

/// Map from node digests to sibling bytes. The entries are kept in a hash
/// table keyed by the leading bytes of the digest; each bucket lists the
/// entries whose digests start with those bytes, each digest at most once.
pub struct SiblingRecord {
    buckets: HashMap<u64, Vec<Entry>>,
    count: usize,
    model: Ghost<Map<Seq<u8>, Seq<u8>>>,
}

/// Every entry of bucket `b` belongs under key `k`, agrees with `model`, and
/// no digest occurs twice in it.
spec fn bucket_wf(b: Seq<Entry>, k: u64, model: Map<Seq<u8>, Seq<u8>>) -> bool {
    &&& forall|i: int|
        0 <= i < b.len() ==> {
            &&& bucket_of(#[trigger] b[i].node@) == k
            &&& model.contains_key(b[i].node@)
            &&& model[b[i].node@] == b[i].siblings@
        }
    &&& forall|i: int, j: int|
        0 <= i < j < b.len() ==> (#[trigger] b[i].node@) != (#[trigger] b[j].node@)
}

/// Whether bucket `b` holds an entry for digest `d`.
spec fn bucket_has(b: Seq<Entry>, d: Seq<u8>) -> bool {
    exists|i: int| 0 <= i < b.len() && (#[trigger] b[i].node@) == d
}

impl View for SiblingRecord {
    type V = Map<Seq<u8>, Seq<u8>>;

    closed spec fn view(&self) -> Map<Seq<u8>, Seq<u8>> {
        self.model@
    }
}

impl SiblingRecord {
    /// The table and the map it stands for agree.
    pub closed spec fn wf(&self) -> bool {
        &&& self.model@.dom().finite()
        &&& self.count == self.model@.len()
        &&& forall|k: u64| #[trigger]
            self.buckets@.contains_key(k) ==> bucket_wf(self.buckets@[k]@, k, self.model@)
        &&& forall|d: Seq<u8>| #[trigger]
            self.model@.contains_key(d) ==> {
                &&& d.len() == 32
                &&& self.model@[d].len() == SIBLINGS_LEN
                &&& self.buckets@.contains_key(bucket_of(d))
                &&& bucket_has(self.buckets@[bucket_of(d)]@, d)
            }
    }

    /// An empty record.
    pub fn new() -> (r: SiblingRecord)
        ensures
            r.wf(),
            r@ == Map::<Seq<u8>, Seq<u8>>::empty(),
    {
        SiblingRecord { buckets: HashMap::new(), count: 0, model: Ghost(Map::empty()) }
    }

    /// A record holds finitely many digests; each is 32 bytes long, and each
    /// recorded value 64.
    pub proof fn lemma_lengths(&self)
        requires
            self.wf(),
        ensures
            self@.dom().finite(),
            forall|d: Seq<u8>| #[trigger]
                self@.contains_key(d) ==> d.len() == 32 && self@[d].len() == SIBLINGS_LEN,
    {
    }

    /// The number of recorded digests.
    pub fn len(&self) -> (r: usize)
        requires
            self.wf(),
        ensures
            r == self@.len(),
    {
        self.count
    }

    /// The sibling bytes recorded for `node`, if any.
    pub fn get(&self, node: &[u8; 32]) -> (r: Option<&Vec<u8>>)
        requires
            self.wf(),
        ensures
            r.is_some() == self@.contains_key(node@),
            r.is_some() ==> r.unwrap()@ == self@[node@],
            r.is_some() ==> r.unwrap()@.len() == SIBLINGS_LEN,
    {
        let key = bucket_key(node);
        match self.buckets.get(&key) {
            None => None,
            Some(bucket) => {
                let mut i: usize = 0;
                while i < bucket.len()
                    invariant
                        0 <= i <= bucket@.len(),
                        self.wf(),
                        bucket_wf(bucket@, key, self.model@),
                        forall|j: int| 0 <= j < i ==> bucket@[j].node@ != node@,
                    decreases bucket.len() - i,
                {
                    if digest_eq(&bucket[i].node, node) {
                        return Some(&bucket[i].siblings);
                    }
                    i = i + 1;
                }
                None
            },
        }
    }

    /// Record `siblings` for `node`, replacing what was recorded for it.
    pub fn insert(&mut self, node: [u8; 32], siblings: Vec<u8>)
        requires
            old(self).wf(),
            siblings@.len() == SIBLINGS_LEN,
            old(self)@.contains_key(node@) || old(self)@.len() < usize::MAX,
        ensures
            final(self).wf(),
            final(self)@ == old(self)@.insert(node@, siblings@),
            final(self)@.len() == old(self)@.len() + if old(self)@.contains_key(node@) {
                0int
            } else {
                1int
            },
    {
        let key = bucket_key(&node);
        let ghost old_buckets = self.buckets@;
        let ghost old_model = self.model@;
        let mut bucket = match self.buckets.remove(&key) {
            Some(b) => b,
            None => Vec::new(),
        };
        let ghost old_bucket = bucket@;
        assert(bucket_wf(old_bucket, key, old_model));
        let mut pos: usize = 0;
        while pos < bucket.len() && !digest_eq(&bucket[pos].node, &node)
            invariant
                0 <= pos <= bucket@.len(),
                bucket@ == old_bucket,
                forall|j: int| 0 <= j < pos ==> bucket@[j].node@ != node@,
            decreases bucket.len() - pos,
        {
            pos = pos + 1;
        }
        let ghost new_model = old_model.insert(node@, siblings@);
        let ghost sib = siblings@;
        if pos < bucket.len() {
            bucket.set(pos, Entry { node, siblings });
            assert forall|i: int| 0 <= i < bucket@.len() && i != pos implies bucket@[i]
                == old_bucket[i] && old_bucket[i].node@ != node@ by {
                if i < pos {
                } else {
                    assert(old_bucket[pos as int].node@ == node@);
                }
            }
        } else {
            assert(!old_model.contains_key(node@)) by {
                if old_model.contains_key(node@) {
                    let i = choose|i: int|
                        0 <= i < old_bucket.len() && (#[trigger] old_bucket[i].node@) == node@;
                }
            }
            self.count = self.count + 1;
            bucket.push(Entry { node, siblings });
            assert forall|i: int| 0 <= i < old_bucket.len() implies bucket@[i] == old_bucket[i]
                && old_bucket[i].node@ != node@ by {}
        }
        assert(bucket@[pos as int].node@ == node@ && bucket@[pos as int].siblings@ == sib);
        assert(bucket_wf(bucket@, key, new_model));
        self.buckets.insert(key, bucket);
        self.model = Ghost(new_model);
        proof {
            assert forall|k: u64| #[trigger] self.buckets@.contains_key(k) implies bucket_wf(
                self.buckets@[k]@,
                k,
                self.model@,
            ) by {
                if k != key {
                    let b = self.buckets@[k]@;
                    assert(bucket_wf(b, k, old_model));
                    assert forall|i: int| 0 <= i < b.len() implies b[i].node@ != node@ by {
                        assert(bucket_of(b[i].node@) == k);
                    }
                }
            }
            assert forall|d: Seq<u8>| #[trigger] self.model@.contains_key(d) implies {
                &&& d.len() == 32
                &&& self.buckets@.contains_key(bucket_of(d))
                &&& bucket_has(self.buckets@[bucket_of(d)]@, d)
                &&& self.model@[d].len() == SIBLINGS_LEN
            } by {
                if d == node@ {
                    assert(self.buckets@[key]@[pos as int].node@ == d);
                } else {
                    assert(old_model.contains_key(d));
                    if bucket_of(d) == key {
                        let i = choose|i: int|
                            0 <= i < old_bucket.len() && (#[trigger] old_bucket[i].node@) == d;
                        assert(old_bucket[i].node@ != node@);
                        assert(self.buckets@[key]@[i].node@ == d);
                    }
                }
            }
        }
    }
}

} // verus!
