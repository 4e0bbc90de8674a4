//! A cache of decoded objects.
use crate::bytes::{push_all, to_vec};
use crate::git::object::ObjectKind;
use vstd::prelude::*;

verus! {

/// A decoded object: the pack and the offset where it was found, its bytes, its kind, and
/// how much of the pack it takes.
pub struct CachedObject {
    pub pack_id: u32,
    pub offset: u64,
    pub data: Seq<u8>,
    pub kind: ObjectKind,
    pub compressed_size: usize,
}

/// The first of `entries` that is for the given pack and offset.
pub open spec fn cached_at(entries: Seq<CachedObject>, pack_id: u32, offset: u64) -> Option<int>
    decreases entries.len(),
{
    if entries.len() == 0 {
        None
    } else if entries[0].pack_id == pack_id && entries[0].offset == offset {
        Some(0)
    } else {
        match cached_at(entries.skip(1), pack_id, offset) {
            None => None,
            Some(i) => Some(i + 1),
        }
    }
}

/// The object that `entries` hold for the given pack and offset.
pub open spec fn cached_object(entries: Seq<CachedObject>, pack_id: u32, offset: u64) -> Option<
    CachedObject,
> {
    match cached_at(entries, pack_id, offset) {
        None => None,
        Some(i) => Some(entries[i]),
    }
}

/// `entries` with the entry `i` moved to the front.
pub open spec fn to_front(entries: Seq<CachedObject>, i: int) -> Seq<CachedObject> {
    seq![entries[i]] + entries.remove(i)
}

/// Something that keeps decoded objects.
pub trait TraitDecodeEntry {
    /// What is kept, the last used first.
    spec fn entries(&self) -> Seq<CachedObject>;

    /// Nothing is wrong with what is kept.
    spec fn wf(&self) -> bool;

    /// The object is kept where it is offered.
    spec fn keeps(&self, o: CachedObject) -> bool;

    /// Offers an object: it is kept before a part of what was kept, or nothing is changed.
    fn put(
        &mut self,
        pack_id: u32,
        offset: u64,
        data: &[u8],
        kind: ObjectKind,
        compressed_size: usize,
    )
        requires
            old(self).wf(),
        ensures
            final(self).wf(),
            forall|o: CachedObject| #[trigger] final(self).keeps(o) == old(self).keeps(o),
            ({
                let o = CachedObject { pack_id, offset, data: data@, kind, compressed_size };
                if old(self).keeps(o) {
                    exists|n: int|
                        0 <= n <= old(self).entries().len() && final(self).entries() == seq![o]
                            + #[trigger] old(self).entries().take(n)
                } else {
                    final(self).entries() == old(self).entries()
                }
            }),
    ;

    /// Gets an object: its bytes replace those of `out`.
    fn get(&mut self, pack_id: u32, offset: u64, out: &mut Vec<u8>) -> (r: Option<
        (ObjectKind, usize),
    >)
        requires
            old(self).wf(),
        ensures
            final(self).wf(),
            forall|o: CachedObject| #[trigger] final(self).keeps(o) == old(self).keeps(o),
            match cached_at(old(self).entries(), pack_id, offset) {
                None => r is None && final(out)@ == old(out)@ && final(self).entries()
                    == old(self).entries(),
                Some(i) => r == Some(
                    (old(self).entries()[i].kind, old(self).entries()[i].compressed_size),
                ) && final(out)@ == old(self).entries()[i].data && final(self).entries()
                    == to_front(old(self).entries(), i),
            },
    ;
}

/// Keeps nothing.
#[derive(Clone, Copy, Debug, Default)]
pub struct Never;

impl TraitDecodeEntry for Never {
    open spec fn entries(&self) -> Seq<CachedObject> {
        Seq::empty()
    }

    open spec fn wf(&self) -> bool {
        true
    }

    open spec fn keeps(&self, o: CachedObject) -> bool {
        false
    }

    fn put(
        &mut self,
        pack_id: u32,
        offset: u64,
        data: &[u8],
        kind: ObjectKind,
        compressed_size: usize,
    ) {
    }

    fn get(&mut self, pack_id: u32, offset: u64, out: &mut Vec<u8>) -> (r: Option<
        (ObjectKind, usize),
    >) {
        None
    }
}

/// An entry of the cache.
pub struct LRUCacheEntry {
    pub pack_id: u32,
    pub offset: u64,
    pub data: Vec<u8>,
    pub kind: ObjectKind,
    pub compressed_size: usize,
}

impl View for LRUCacheEntry {
    type V = CachedObject;

    open spec fn view(&self) -> CachedObject {
        CachedObject {
            pack_id: self.pack_id,
            offset: self.offset,
            data: self.data@,
            kind: self.kind,
            compressed_size: self.compressed_size,
        }
    }
}

impl LRUCacheEntry {
    /// What the entry holds, where it is for the given pack and offset.
    fn hit(&self, pack_id: u32, offset: u64) -> (r: Option<(ObjectKind, usize, Vec<u8>)>)
        ensures
            r is Some <==> self.pack_id == pack_id && self.offset == offset,
            r matches Some(x) ==> x.0 == self.kind && x.1 == self.compressed_size && x.2@
                == self.data@,
    {
        if self.pack_id == pack_id && self.offset == offset {
            Some((self.kind, self.compressed_size, to_vec(self.data.as_slice())))
        } else {
            None
        }
    }
}

/// The least recently used cache of uluru.
#[verifier::external_type_specification]
#[verifier::external_body]
#[verifier::reject_recursive_types(T)]
pub struct ExLRUCache<T, const N: usize>(uluru::LRUCache<T, N>);

/// What a cache holds, the last used first.
pub uninterp spec fn lru_entries(c: uluru::LRUCache<LRUCacheEntry, 64>) -> Seq<CachedObject>;

/// Calls `uluru::LRUCache::new`: an empty cache.
#[verifier::external_body]
fn lru_new() -> (r: uluru::LRUCache<LRUCacheEntry, 64>)
    ensures
        lru_entries(r) == Seq::<CachedObject>::empty(),
{
    uluru::LRUCache::new()
}

/// Calls `uluru::LRUCache::insert`: the entry comes to the front, and the last one leaves and
/// is handed back where there were 64.
#[verifier::external_body]
fn lru_insert(c: &mut uluru::LRUCache<LRUCacheEntry, 64>, e: LRUCacheEntry) -> (r: Option<
    LRUCacheEntry,
>)
    ensures
        lru_entries(*old(c)).len() < 64 ==> r is None && lru_entries(*final(c)) == seq![e@]
            + lru_entries(*old(c)),
        lru_entries(*old(c)).len() >= 64 ==> (r matches Some(out) && out@ == lru_entries(
            *old(c),
        ).last()) && lru_entries(*final(c)) == seq![e@] + lru_entries(*old(c)).drop_last(),
{
    c.insert(e)
}

/// Calls `uluru::LRUCache::clear`: nothing is left.
#[verifier::external_body]
fn lru_clear(c: &mut uluru::LRUCache<LRUCacheEntry, 64>)
    ensures
        lru_entries(*final(c)) == Seq::<CachedObject>::empty(),
{
    c.clear()
}

/// Calls `uluru::LRUCache::lookup` with a test for the pack and the offset: the first entry
/// that passes it comes to the front.
#[verifier::external_body]
fn lru_lookup(c: &mut uluru::LRUCache<LRUCacheEntry, 64>, pack_id: u32, offset: u64) -> (r: Option<
    (ObjectKind, usize, Vec<u8>),
>)
    ensures
        match cached_at(lru_entries(*old(c)), pack_id, offset) {
            None => r is None && lru_entries(*final(c)) == lru_entries(*old(c)),
            Some(i) => (r matches Some(x) && x.0 == lru_entries(*old(c))[i].kind && x.1
                == lru_entries(*old(c))[i].compressed_size && x.2@ == lru_entries(*old(c))[i].data)
                && lru_entries(*final(c)) == to_front(lru_entries(*old(c)), i),
        },
{
    c.lookup(|e: &mut LRUCacheEntry| e.hit(pack_id, offset))
}

/// Calls `Vec::capacity`: never less than the length. How much more it is rests with the
/// allocator.
#[verifier::external_body]
fn capacity_of(v: &Vec<u8>) -> (r: usize)
    ensures
        r >= v@.len(),
{
    v.capacity()
}

/// Keeps up to 64 objects, within a limit of memory.
pub struct StaticLinkedList {
    inner: uluru::LRUCache<LRUCacheEntry, 64>,
    last_evicted: Vec<u8>,
    mem_used: usize,
    mem_limit: usize,
}

/// Replaces the bytes of `v` by those of `source`.
fn set_vec_to_slice(v: &mut Vec<u8>, source: &[u8])
    ensures
        final(v)@ == source@,
{
    v.clear();
    push_all(v, source);
    assert(v@ =~= source@);
}

impl StaticLinkedList {
    /// The largest object that is kept.
    pub closed spec fn limit(&self) -> usize {
        self.mem_limit
    }

    /// A cache that keeps objects up to `mem_limit` bytes, of any size where that is 0.
    pub fn new(mem_limit: usize) -> (r: StaticLinkedList)
        ensures
            r.wf(),
            r.entries() == Seq::<CachedObject>::empty(),
            r.limit() == (if mem_limit == 0 {
                usize::MAX
            } else {
                mem_limit
            }),
    {
        StaticLinkedList {
            inner: lru_new(),
            last_evicted: Vec::new(),
            mem_used: 0,
            mem_limit: if mem_limit == 0 {
                usize::MAX
            } else {
                mem_limit
            },
        }
    }
}

impl Default for StaticLinkedList {
    fn default() -> (r: Self)
        ensures
            r.wf(),
            r.entries() == Seq::<CachedObject>::empty(),
            r.limit() == 0x600_0000,
    {
        StaticLinkedList::new(0x600_0000)
    }
}

impl TraitDecodeEntry for StaticLinkedList {
    closed spec fn entries(&self) -> Seq<CachedObject> {
        lru_entries(self.inner)
    }

    open spec fn wf(&self) -> bool {
        true
    }

    open spec fn keeps(&self, o: CachedObject) -> bool {
        o.data.len() <= self.limit()
    }

    fn put(
        &mut self,
        pack_id: u32,
        offset: u64,
        data: &[u8],
        kind: ObjectKind,
        compressed_size: usize,
    )
        ensures
            final(self).limit() == old(self).limit(),
    {
        if data.len() > self.mem_limit {
            return;
        }
        let ghost before = self.entries();
        let mem_free: usize = self.mem_limit.saturating_sub(self.mem_used);
        if data.len() > mem_free {
            let free_list_cap: usize = self.last_evicted.len();
            self.last_evicted = Vec::new();
            if data.len() > mem_free.saturating_add(free_list_cap) {
                lru_clear(&mut self.inner);
                self.mem_used = 0;
            } else {
                self.mem_used = self.mem_used.saturating_sub(free_list_cap);
            }
        }
        let mut v: Vec<u8> = Vec::new();
        std::mem::swap(&mut v, &mut self.last_evicted);
        self.mem_used = self.mem_used.saturating_sub(capacity_of(&v));
        set_vec_to_slice(&mut v, data);
        self.mem_used = self.mem_used.saturating_add(capacity_of(&v));
        let e = LRUCacheEntry { pack_id, offset, data: v, kind, compressed_size };
        let ghost kept = self.entries();
        proof {
            assert(before.take(before.len() as int) =~= before);
            assert(before.take(0) =~= Seq::<CachedObject>::empty());
            assert(kept == before.take(kept.len() as int));
            if kept.len() > 0 {
                assert(before.take(kept.len() - 1) =~= kept.drop_last());
            }
        }
        match lru_insert(&mut self.inner, e) {
            Some(previous) => {
                self.last_evicted = previous.data;
            },
            None => {},
        }
    }

    fn get(&mut self, pack_id: u32, offset: u64, out: &mut Vec<u8>) -> (r: Option<
        (ObjectKind, usize),
    >) {
        match lru_lookup(&mut self.inner, pack_id, offset) {
            Some((kind, compressed_size, data)) => {
                set_vec_to_slice(out, data.as_slice());
                Some((kind, compressed_size))
            },
            None => None,
        }
    }
}

/// What is got after an object was put is that object.
pub proof fn law_got_what_was_put(entries: Seq<CachedObject>, o: CachedObject, n: int)
    requires
        0 <= n <= entries.len(),
    ensures
        cached_object(seq![o] + entries.take(n), o.pack_id, o.offset) == Some(o),
{
    assert((seq![o] + entries.take(n))[0] == o);
}

} // verus!
