//! A table from byte strings to numbers.
use crate::bytes::{eq_bytes, to_vec};
use std::collections::HashMap;
use vstd::prelude::*;

verus! {

/// The hash of no bytes.
pub const OFFSET_BASIS: u64 = 0xcbf29ce484222325;

/// The factor that each byte is mixed in with.
pub const PRIME: u64 = 0x100000001b3;

/// The hash of the bytes, from the hash `h` of what comes before them.
pub open spec fn fnv(h: u64, s: Seq<u8>) -> u64
    decreases s.len(),
{
    if s.len() == 0 {
        h
    } else {
        (fnv(h, s.drop_last()) ^ (s.last() as u64)).wrapping_mul(PRIME)
    }
}

/// The Fowler-Noll-Vo hash of what was written to it.
pub struct Hasher(u64);

impl Hasher {
    pub closed spec fn hash(self) -> u64 {
        self.0
    }

    /// A hasher that nothing was written to.
    pub fn new() -> (r: Hasher)
        ensures
            r.hash() == OFFSET_BASIS,
    {
        Hasher(OFFSET_BASIS)
    }

    /// The hash.
    pub fn finish(&self) -> (r: u64)
        ensures
            r == self.hash(),
    {
        self.0
    }

    /// Mixes the bytes in.
    pub fn write(&mut self, bytes: &[u8])
        ensures
            final(self).hash() == fnv(old(self).hash(), bytes@),
    {
        let ghost h = self.0;
        let mut i: usize = 0;
        assert(bytes@.take(0) =~= seq![]);
        while i < bytes.len()
            invariant
                i <= bytes@.len(),
                self.0 == fnv(h, bytes@.take(i as int)),
            decreases bytes@.len() - i,
        {
            self.0 = self.0 ^ (bytes[i] as u64);
            self.0 = self.0.wrapping_mul(PRIME);
            assert(bytes@.take(i + 1).drop_last() =~= bytes@.take(i as int));
            i += 1;
        }
        assert(bytes@.take(bytes@.len() as int) =~= bytes@);
    }
}

/// The hash of a key.
fn hash_of(key: &[u8]) -> (r: u64)
    ensures
        r == fnv(OFFSET_BASIS, key@),
{
    let mut h = Hasher::new();
    h.write(key);
    h.finish()
}

/// The entries whose keys have the hash `h`, in their order.
pub open spec fn with_hash(entries: Seq<(Seq<u8>, usize)>, h: u64) -> Seq<(Seq<u8>, usize)>
    decreases entries.len(),
{
    if entries.len() == 0 {
        seq![]
    } else {
        let rest = with_hash(entries.drop_last(), h);
        if fnv(OFFSET_BASIS, entries.last().0) == h {
            rest.push(entries.last())
        } else {
            rest
        }
    }
}

/// The numbers of the entries with the given key, in their order.
pub open spec fn hits(entries: Seq<(Seq<u8>, usize)>, key: Seq<u8>) -> Seq<usize>
    decreases entries.len(),
{
    if entries.len() == 0 {
        seq![]
    } else {
        let rest = hits(entries.drop_last(), key);
        if entries.last().0 == key {
            rest.push(entries.last().1)
        } else {
            rest
        }
    }
}

proof fn lemma_hits_with_hash(entries: Seq<(Seq<u8>, usize)>, key: Seq<u8>)
    ensures
        hits(with_hash(entries, fnv(OFFSET_BASIS, key)), key) == hits(entries, key),
    decreases entries.len(),
{
    if entries.len() > 0 {
        lemma_hits_with_hash(entries.drop_last(), key);
        let h = fnv(OFFSET_BASIS, key);
        let rest = with_hash(entries.drop_last(), h);
        assert(rest.push(entries.last()).drop_last() =~= rest);
    }
}

pub proof fn lemma_hits(entries: Seq<(Seq<u8>, usize)>, key: Seq<u8>, n: usize)
    ensures
        hits(entries, key).contains(n) <==> entries.contains((key, n)),
    decreases entries.len(),
{
    if entries.len() > 0 {
        let front = entries.drop_last();
        lemma_hits(front, key, n);
        let rest = hits(front, key);
        let last = entries.last();
        if entries.contains((key, n)) {
            let i = choose|i: int| 0 <= i < entries.len() && entries[i] == (key, n);
            if i < entries.len() - 1 {
                assert(front[i] == (key, n));
                let j = choose|j: int| 0 <= j < rest.len() && rest[j] == n;
                assert(hits(entries, key)[j] == n);
            } else {
                assert(hits(entries, key)[rest.len() as int] == n);
            }
        }
        if hits(entries, key).contains(n) {
            let j = choose|j: int| 0 <= j < hits(entries, key).len() && hits(entries, key)[j] == n;
            if j < rest.len() {
                assert(rest[j] == n);
                let i = choose|i: int| 0 <= i < front.len() && front[i] == (key, n);
                assert(entries[i] == (key, n));
            } else {
                assert(entries[entries.len() - 1] == (key, n));
            }
        }
    }
}

/// The entries of a bucket.
pub open spec fn bucket_view(b: Seq<(Vec<u8>, usize)>) -> Seq<(Seq<u8>, usize)> {
    b.map_values(|e: (Vec<u8>, usize)| (e.0@, e.1))
}

/// A table from byte strings to numbers. A key may have more than one.
pub struct Table {
    buckets: HashMap<u64, Vec<(Vec<u8>, usize)>>,
    all: Ghost<Seq<(Seq<u8>, usize)>>,
}

impl Table {
    /// The entries, in the order in which they were added.
    pub closed spec fn entries(self) -> Seq<(Seq<u8>, usize)> {
        self.all@
    }

    /// Each bucket holds the entries with its hash, of which there is at least one.
    pub closed spec fn wf(self) -> bool {
        &&& forall|h: u64| #[trigger] self.buckets@.dom().contains(h) ==> self.buckets@[h]@.len() > 0
        &&& forall|h: u64| #[trigger]
            with_hash(self.all@, h) == (if self.buckets@.dom().contains(h) {
                bucket_view(self.buckets@[h]@)
            } else {
                seq![]
            })
    }

    /// A table without entries.
    pub fn new() -> (r: Table)
        ensures
            r.wf(),
            r.entries() == Seq::<(Seq<u8>, usize)>::empty(),
    {
        broadcast use vstd::std_specs::hash::group_hash_axioms;

        Table { buckets: HashMap::new(), all: Ghost(Seq::empty()) }
    }

    /// Adds an entry.
    pub fn insert(&mut self, key: &[u8], n: usize)
        requires
            old(self).wf(),
        ensures
            final(self).wf(),
            final(self).entries() == old(self).entries().push((key@, n)),
    {
        broadcast use vstd::std_specs::hash::group_hash_axioms;

        let ghost before = *self;
        let h: u64 = hash_of(key);
        let mut bucket: Vec<(Vec<u8>, usize)> = match self.buckets.remove(&h) {
            Some(b) => b,
            None => Vec::new(),
        };
        let ghost was = bucket_view(bucket@);
        proof {
            assert(with_hash(before.all@, h) == was) by {
                assert(before.buckets@.dom().contains(h) ==> bucket_view(before.buckets@[h]@)
                    == was);
                assert(!before.buckets@.dom().contains(h) ==> was =~= seq![]);
            }
        }
        let k = to_vec(key);
        bucket.push((k, n));
        assert(bucket_view(bucket@) =~= was.push((key@, n)));
        self.buckets.insert(h, bucket);
        self.all = Ghost(before.all@.push((key@, n)));
        proof {
            let all = self.all@;
            assert(all.drop_last() =~= before.all@);
            assert forall|x: u64| #[trigger]
                with_hash(all, x) == (if self.buckets@.dom().contains(x) {
                    bucket_view(self.buckets@[x]@)
                } else {
                    seq![]
                }) by {
                assert(with_hash(before.all@, x) == (if before.buckets@.dom().contains(x) {
                    bucket_view(before.buckets@[x]@)
                } else {
                    seq![]
                }));
            }
        }
    }

    /// Appends the numbers of the entries with the given key, in their order.
    pub fn extend_hits(&self, key: &[u8], out: &mut Vec<usize>)
        requires
            self.wf(),
        ensures
            final(out)@ == old(out)@ + hits(self.entries(), key@),
    {
        broadcast use vstd::std_specs::hash::group_hash_axioms;

        let ghost before = out@;
        let h: u64 = hash_of(key);
        proof {
            lemma_hits_with_hash(self.all@, key@);
            assert(with_hash(self.all@, h) == (if self.buckets@.dom().contains(h) {
                bucket_view(self.buckets@[h]@)
            } else {
                seq![]
            }));
        }
        match self.buckets.get(&h) {
            None => {
                assert(before + hits(self.all@, key@) =~= before);
            },
            Some(bucket) => {
                let ghost views = bucket_view(bucket@);
                let mut i: usize = 0;
                assert(views.take(0) =~= seq![]);
                assert(before + hits(views.take(0), key@) =~= before);
                while i < bucket.len()
                    invariant
                        i <= bucket@.len(),
                        views == bucket_view(bucket@),
                        out@ == before + hits(views.take(i as int), key@),
                    decreases bucket@.len() - i,
                {
                    let ghost done = hits(views.take(i as int), key@);
                    assert(views.take(i + 1).drop_last() =~= views.take(i as int));
                    if eq_bytes(bucket[i].0.as_slice(), key) {
                        out.push(bucket[i].1);
                        assert((before + done).push(bucket@[i as int].1) =~= before + done.push(
                            bucket@[i as int].1,
                        ));
                    }
                    i += 1;
                }
                assert(views.take(views.len() as int) =~= views);
            },
        }
    }

    /// Whether an entry has the given key.
    pub fn contains_key(&self, key: &[u8]) -> (r: bool)
        requires
            self.wf(),
        ensures
            r == exists|n: usize| self.entries().contains((key@, n)),
    {
        let mut found: Vec<usize> = Vec::new();
        self.extend_hits(key, &mut found);
        proof {
            let all = hits(self.entries(), key@);
            assert(found@ =~= all);
            if all.len() > 0 {
                assert(all.contains(all[0]));
                lemma_hits(self.entries(), key@, all[0]);
                assert(self.entries().contains((key@, all[0])));
            }
            if exists|n: usize| self.entries().contains((key@, n)) {
                let n = choose|n: usize| self.entries().contains((key@, n));
                lemma_hits(self.entries(), key@, n);
                let j = choose|j: int| 0 <= j < all.len() && all[j] == n;
                assert(all.len() > 0);
            }
        }
        found.len() > 0
    }

    /// Whether there is no entry.
    pub fn is_empty(&self) -> (r: bool)
        requires
            self.wf(),
        ensures
            r == (self.entries().len() == 0),
    {
        broadcast use vstd::std_specs::hash::group_hash_axioms;

        let n: usize = self.buckets.len();
        proof {
            if n == 0 && self.all@.len() > 0 {
                let h = fnv(OFFSET_BASIS, self.all@.last().0);
                assert(with_hash(self.all@, h).len() > 0);
                assert(self.buckets@.dom().contains(h));
                assert(self.buckets@.dom().len() == 0);
                assert(false);
            }
            if n > 0 && self.all@.len() == 0 {
                let h = self.buckets@.dom().choose();
                assert(self.buckets@.dom().contains(h));
                assert(with_hash(self.all@, h).len() == 0);
                assert(bucket_view(self.buckets@[h]@).len() > 0);
            }
        }
        n == 0
    }
}

} // verus!
