//! Finding an object in packs and elsewhere.
use crate::git::error::GitError;
use crate::git::object::ObjectKind;
use crate::git::odb::slots::Slot;
use crate::git::odb::store::{PackId, SlotIndexMarker, SlotMapIndex};
use crate::git::oid::{oid, ObjectId};
use crate::git::pack::cache::{CachedObject, TraitDecodeEntry};
use crate::git::pack::data::{
    as_cached, chain_ends, chain_ends_within, decoded, entry_view_at, lemma_chain_ends, Bases, ChainError, DataFile, External,
    ExternalView, Sources,
};
use crate::git::pack::index::{found_at, offset_at, IndexFile};
use crate::path::paths_view;
use std::sync::Arc;
use vstd::prelude::*;

verus! {

/// A pack that can be searched.
#[derive(Debug)]
pub struct IndexLookup {
    pub index: Arc<IndexFile>,
    /// The data of the pack, once it was read.
    pub data: Option<Arc<DataFile>>,
    /// The slot of the pack.
    pub id: usize,
}

/// What can be searched at a time.
#[derive(Debug)]
pub struct Snapshot {
    pub indices: Vec<IndexLookup>,
    pub loose_dbs: Vec<Vec<u8>>,
    pub marker: SlotIndexMarker,
}

impl Snapshot {
    pub open spec fn wf(self) -> bool {
        forall|i: int| 0 <= i < self.indices@.len() ==> (#[trigger] self.indices@[i]).index.wf()
    }
}

/// The first pack from the `k`-th on that holds the object `id`.
pub open spec fn first_pack(v: Seq<IndexLookup>, id: Seq<u8>, k: int) -> int
    decreases v.len() - k,
{
    if k >= v.len() || k < 0 {
        v.len() as int
    } else if found_at(v[k].index@, id) is Some {
        k
    } else {
        first_pack(v, id, k + 1)
    }
}

/// Where the object `id` begins in the pack.
pub open spec fn offset_in(p: IndexLookup, id: Seq<u8>) -> u64 {
    offset_at(p.index@, found_at(p.index@, id)->0) as u64
}

/// What came of looking for an object in the packs.
#[derive(Debug)]
pub enum FindStep {
    /// No pack holds it.
    NotPacked,
    /// The data of the pack that holds it is to be read.
    NeedsPack(PackId),
    /// It builds on an object that is elsewhere.
    NeedsBase(ObjectId),
    /// It is of this kind, and this is what it holds.
    Found(ObjectKind, Vec<u8>),
    Failed(GitError),
}

/// The object from elsewhere.
pub open spec fn external_of(x: Option<External<'_>>) -> Option<ExternalView> {
    match x {
        None => None,
        Some(x) => Some(ExternalView { id: x.id@, kind: x.kind, data: x.data@ }),
    }
}

/// Where the objects that deltas of the pack `p` build on are looked for.
pub open spec fn sources_of(p: IndexLookup, external: Option<ExternalView>, cached: Seq<CachedObject>) -> Sources {
    Sources {
        data: (p.data->0)@,
        pack_id: (p.data->0).pack_id(),
        index: p.index@,
        external,
        cached,
    }
}

/// `v` with its first element and the `i`-th exchanged.
pub open spec fn exchanged(v: Seq<IndexLookup>, i: int) -> Seq<IndexLookup> {
    v.update(0, v[i]).update(i, v[0])
}

/// Exchanges the first pack and the `i`-th, so that the one that was found is searched first.
fn move_to_front(v: &mut Vec<IndexLookup>, i: usize)
    requires
        i < old(v)@.len(),
    ensures
        final(v)@ == exchanged(old(v)@, i as int),
{
    if i != 0 {
        let ghost before = v@;
        let mut other = IndexLookup {
            index: v[i].index.clone(),
            data: match &v[i].data {
                Some(d) => Some(d.clone()),
                None => None,
            },
            id: v[i].id,
        };
        assert(other == before[i as int]);
        std::mem::swap(&mut other, &mut v[0]);
        v.set(i, other);
    }
    assert(v@ =~= exchanged(old(v)@, i as int));
}

/// `r` is what a search of the packs for the object `id` gives, and `after` is what it leaves behind.
pub open spec fn search_gives(
    before: Snapshot,
    after: Snapshot,
    id: Seq<u8>,
    external: Option<ExternalView>,
    cached: Seq<CachedObject>,
    r: FindStep,
) -> bool {
    let i = first_pack(before.indices@, id, 0);
    let p = before.indices@[i];
    if i >= before.indices@.len() {
        r is NotPacked && after.indices == before.indices
    } else if p.data is None {
        r == FindStep::NeedsPack(PackId { index: p.id, multipack_index: None }) && after.indices
            == before.indices
    } else {
        match entry_view_at((p.data->0)@, offset_in(p, id)) {
            None => (r matches FindStep::Failed(e) && e is Gen) && after.indices == before.indices,
            Some(e) => match decoded(sources_of(p, external, cached), e) {
                Err(err) => {
                    &&& after.indices == before.indices
                    &&& match err {
                        ChainError::Unresolved(base) => r matches FindStep::NeedsBase(b) && b@ == base,
                        ChainError::Corrupt => r matches FindStep::Failed(f) && f is Gen,
                    }
                },
                Ok(d) => {
                    &&& r matches FindStep::Found(kind, data) && kind == d.kind && data@ == d.data
                    &&& after.indices@ == exchanged(before.indices@, i)
                },
            },
        }
    }
}

/// An object that was built from deltas is kept by a cache that keeps such objects.
pub open spec fn search_keeps<C: TraitDecodeEntry>(
    s: Snapshot,
    id: Seq<u8>,
    external: Option<ExternalView>,
    before: C,
    after: C,
) -> bool {
    let i = first_pack(s.indices@, id, 0);
    let p = s.indices@[i];
    i < s.indices@.len() && p.data is Some ==> (entry_view_at((p.data->0)@, offset_in(p, id)) matches Some(e) ==> (
    decoded(sources_of(p, external, before.entries()), e) matches Ok(d) ==> {
        let o = as_cached((p.data->0).pack_id(), e.data_offset, d);
        d.num_deltas > 0 && before.keeps(o) ==> after.entries().len() > 0 && after.entries()[0] == o
    }))
}

/// The deltas of the object `id` do not go round in a circle.
pub open spec fn search_ends(s: Snapshot, id: Seq<u8>, external: Option<ExternalView>) -> bool {
    let i = first_pack(s.indices@, id, 0);
    let p = s.indices@[i];
    i < s.indices@.len() && p.data is Some ==> (entry_view_at((p.data->0)@, offset_in(p, id)) matches Some(e)
        ==> chain_ends_within(sources_of(p, external, seq![]), e, (p.data->0)@.len()))
}

impl Snapshot {
    /// Looks for the object `id` in the packs, as `try_find_cached_inner` does. An object whose deltas go round in a
    /// circle is an error.
    pub fn try_find_cached<C: TraitDecodeEntry>(
        &mut self,
        id: oid<'_>,
        external: Option<External<'_>>,
        cache: &mut C,
    ) -> (r: FindStep)
        requires
            old(self).wf(),
            id.wf(),
            old(cache).wf(),
        ensures
            final(self).wf(),
            final(cache).wf(),
            final(self).marker == old(self).marker,
            final(self).loose_dbs == old(self).loose_dbs,
            if search_ends(*old(self), id@, external_of(external)) {
                search_gives(*old(self), *final(self), id@, external_of(external), old(cache).entries(), r)
                    && search_keeps(*old(self), id@, external_of(external), *old(cache), *final(cache))
            } else {
                (r matches FindStep::Failed(e) && e is Gen) && final(self).indices == old(self).indices
                    && *final(cache) == *old(cache)
            },
    {
        if let Some((i, offset)) = self.lookup(id) {
            assert(self.indices@[i as int].index.wf());
            if let Some(pack) = &self.indices[i].data {
                if let Ok(entry) = pack.entry(offset) {
                    let bases = Bases { index: &self.indices[i].index, external };
                    let ghost src = sources_of(self.indices@[i as int], external_of(external), seq![]);
                    assert(pack.sources(&bases, seq![]) == src);
                    if !pack.chain_is_finite(&entry, &bases) {
                        return FindStep::Failed(GitError::Gen);
                    }
                    proof {
                        let full = sources_of(
                            self.indices@[i as int],
                            external_of(external),
                            cache.entries(),
                        );
                        lemma_chain_ends(full, entry@, pack@.len());
                    }
                }
            }
        }
        self.try_find_cached_inner(id, external, cache)
    }

    /// The first pack that holds the object `id`.
    pub fn lookup(&self, id: oid<'_>) -> (r: Option<(usize, u64)>)
        requires
            self.wf(),
            id.wf(),
        ensures
            r is Some <==> first_pack(self.indices@, id@, 0) < self.indices@.len(),
            r matches Some((i, offset)) ==> i == first_pack(self.indices@, id@, 0) && i
                < self.indices@.len() && offset == offset_at(
                self.indices@[i as int].index@,
                found_at(self.indices@[i as int].index@, id@)->0,
            ),
    {
        let mut k: usize = 0;
        while k < self.indices.len()
            invariant
                k <= self.indices@.len(),
                self.wf(),
                id.wf(),
                first_pack(self.indices@, id@, 0) == first_pack(self.indices@, id@, k as int),
            decreases self.indices.len() - k,
        {
            assert(self.indices@[k as int].index.wf());
            match self.indices[k].index.pack_offset_by_id(id) {
                Some(offset) => {
                    return Some((k, offset));
                },
                None => {},
            }
            k += 1;
        }
        None
    }

    /// Looks for the object `id` in the packs. A pack in which it is found is searched first from then on.
    pub fn try_find_cached_inner<C: TraitDecodeEntry>(
        &mut self,
        id: oid<'_>,
        external: Option<External<'_>>,
        cache: &mut C,
    ) -> (r: FindStep)
        requires
            old(self).wf(),
            id.wf(),
            old(cache).wf(),
            ({
                let i = first_pack(old(self).indices@, id@, 0);
                let p = old(self).indices@[i];
                i < old(self).indices@.len() && p.data is Some ==> (entry_view_at(
                    (p.data->0)@,
                    offset_in(p, id@),
                ) matches Some(e) ==> chain_ends(
                    sources_of(p, external_of(external), old(cache).entries()),
                    e,
                ))
            }),
        ensures
            final(self).wf(),
            final(cache).wf(),
            final(self).marker == old(self).marker,
            final(self).loose_dbs == old(self).loose_dbs,
            search_gives(*old(self), *final(self), id@, external_of(external), old(cache).entries(), r),
            search_keeps(*old(self), id@, external_of(external), *old(cache), *final(cache)),
            r is NotPacked || r is NeedsPack ==> *final(cache) == *old(cache),
    {
        let (i, offset) = match self.lookup(id) {
            None => {
                return FindStep::NotPacked;
            },
            Some(x) => x,
        };
        let ghost first = *self;
        assert(self.indices@[i as int].index.wf());
        let pack = match &self.indices[i].data {
            None => {
                return FindStep::NeedsPack(PackId { index: self.indices[i].id, multipack_index: None });
            },
            Some(d) => d.clone(),
        };
        let index = self.indices[i].index.clone();
        let entry = match pack.entry(offset) {
            Err(e) => {
                return FindStep::Failed(e);
            },
            Ok(e) => e,
        };
        let bases = Bases { index: &index, external };
        let mut buffer: Vec<u8> = Vec::new();
        assert(pack.sources(&bases, cache.entries()) == sources_of(
            first.indices@[i as int],
            external_of(external),
            cache.entries(),
        ));
        match pack.decode_entry(entry, &mut buffer, &bases, cache) {
            Ok(o) => {
                move_to_front(&mut self.indices, i);
                proof {
                    assert forall|k: int| 0 <= k < self.indices@.len() implies (
                    #[trigger] self.indices@[k]).index.wf() by {
                        assert(first.indices@[0].index.wf());
                        if k != 0 && k != i {
                            assert(self.indices@[k] == first.indices@[k]);
                        }
                    }
                }
                FindStep::Found(o.kind, buffer)
            },
            Err(GitError::DeltaBaseUnresolved(base)) => FindStep::NeedsBase(base),
            Err(e) => FindStep::Failed(e),
        }
    }

    /// The data of the pack in the slot `slot` was read.
    pub fn pack_loaded(&mut self, slot: usize, data: Arc<DataFile>)
        requires
            old(self).wf(),
        ensures
            final(self).wf(),
            final(self).marker == old(self).marker,
            final(self).loose_dbs == old(self).loose_dbs,
            final(self).indices@.len() == old(self).indices@.len(),
            forall|i: int|
                0 <= i < old(self).indices@.len() ==> {
                    let p = old(self).indices@[i];
                    #[trigger] final(self).indices@[i] == (if p.id == slot {
                        IndexLookup { index: p.index, data: Some(data), id: p.id }
                    } else {
                        p
                    })
                },
    {
        let mut i: usize = 0;
        while i < self.indices.len()
            invariant
                i <= self.indices@.len(),
                self.marker == old(self).marker,
                self.loose_dbs == old(self).loose_dbs,
                old(self).wf(),
                self.indices@.len() == old(self).indices@.len(),
                forall|k: int|
                    0 <= k < i ==> {
                        let p = old(self).indices@[k];
                        #[trigger] self.indices@[k] == (if p.id == slot {
                            IndexLookup { index: p.index, data: Some(data), id: p.id }
                        } else {
                            p
                        })
                    },
                forall|k: int|
                    i <= k < self.indices@.len() ==> #[trigger] self.indices@[k] == old(self).indices@[k],
            decreases self.indices.len() - i,
        {
            let ghost before = self.indices@;
            assert(before[i as int] == old(self).indices@[i as int]);
            if self.indices[i].id == slot {
                self.indices[i].data = Some(data.clone());
                assert(self.indices@[i as int] == (IndexLookup {
                    index: before[i as int].index,
                    data: Some(data),
                    id: before[i as int].id,
                }));
            }
            i += 1;
        }
        assert forall|k: int| 0 <= k < self.indices@.len() implies (#[trigger] self.indices@[k]).index.wf() by {
            assert(old(self).indices@[k].index.wf());
        }
    }
}

/// The pack in the slot can be searched.
pub open spec fn searchable(s: Slot) -> bool {
    s.files matches Some(b) && b.index.state.contents() is Some
}

/// What can be searched of the slot `id`.
pub open spec fn lookup_of(s: Slot, id: usize) -> IndexLookup {
    IndexLookup {
        index: (s.files->0).index.state.contents()->0,
        data: (s.files->0).data.state.contents(),
        id,
    }
}

/// What can be searched of the first `k` slots in use.
pub open spec fn lookups(slots: Seq<Slot>, used: Seq<usize>, k: int) -> Seq<IndexLookup>
    decreases k,
{
    if k <= 0 {
        Seq::empty()
    } else if searchable(slots[used[k - 1] as int]) {
        lookups(slots, used, k - 1).push(lookup_of(slots[used[k - 1] as int], used[k - 1]))
    } else {
        lookups(slots, used, k - 1)
    }
}

/// The indices that were read are sound.
pub open spec fn indices_sound(slots: Seq<Slot>) -> bool {
    forall|s: int|
        0 <= s < slots.len() ==> (searchable(#[trigger] slots[s]) ==> ((
        slots[s].files->0).index.state.contents()->0).wf())
}

/// What can be searched right now.
pub fn collect_snapshot(slots: &Vec<Slot>, index: &SlotMapIndex) -> (r: Snapshot)
    requires
        index.wf(slots@.len()),
        indices_sound(slots@),
    ensures
        r.wf(),
        r.indices@ == (if index.loose_dbs@.len() > 0 {
            lookups(slots@, index.slot_indices@, index.slot_indices@.len() as int)
        } else {
            Seq::empty()
        }),
        paths_view(r.loose_dbs@) == paths_view(index.loose_dbs@),
        r.marker == (SlotIndexMarker {
            generation: index.generation,
            revision: index.revision,
            loaded_indices: index.loaded_indices,
        }),
{
    let mut indices: Vec<IndexLookup> = Vec::new();
    if index.is_initialized() {
        let mut k: usize = 0;
        while k < index.slot_indices.len()
            invariant
                k <= index.slot_indices@.len(),
                index.wf(slots@.len()),
                indices_sound(slots@),
                indices@ == lookups(slots@, index.slot_indices@, k as int),
                forall|i: int| 0 <= i < indices@.len() ==> (#[trigger] indices@[i]).index.wf(),
            decreases index.slot_indices.len() - k,
        {
            let id = index.slot_indices[k];
            assert(id == index.slot_indices@[k as int]);
            assert(id < slots@.len());
            let ghost slot = slots@[id as int];
            let ghost before = indices@;
            match &slots[id].files {
                None => {},
                Some(b) => match b.index.loaded() {
                    None => {},
                    Some(file) => {
                        assert(searchable(slot));
                        let l = IndexLookup { index: file, data: b.data.loaded(), id };
                        assert(l == lookup_of(slot, id));
                        indices.push(l);
                    },
                },
            }
            k += 1;
        }
    }
    let mut loose_dbs: Vec<Vec<u8>> = Vec::new();
    let ghost all = paths_view(index.loose_dbs@);
    let mut i: usize = 0;
    while i < index.loose_dbs.len()
        invariant
            i <= index.loose_dbs@.len(),
            all == paths_view(index.loose_dbs@),
            paths_view(loose_dbs@) == all.take(i as int),
        decreases index.loose_dbs.len() - i,
    {
        let ghost before = paths_view(loose_dbs@);
        loose_dbs.push(crate::bytes::to_vec(index.loose_dbs[i].as_slice()));
        assert(paths_view(loose_dbs@) =~= before.push(all[i as int]));
        assert(paths_view(loose_dbs@) =~= all.take(i + 1));
        i += 1;
    }
    assert(all.take(all.len() as int) =~= all);
    Snapshot { indices, loose_dbs, marker: index.marker() }
}

/// How many objects may build on each other across packs.
pub const MAX_RECURSION_DEPTH: usize = 32;

/// What happened while an object was looked for.
#[derive(Debug)]
pub enum FindEvent {
    /// The search begins.
    Begin,
    /// The packs were searched.
    Searched(FindStep),
    /// The data of a pack was asked for; it is there, or the slots changed.
    PackLoaded(Result<bool, GitError>),
    /// More packs were looked for; there are some, or not.
    Refreshed(Result<bool, GitError>),
    /// The `k`-th directory of loose objects was asked; it has the object, or not.
    LooseAsked(usize, bool),
    /// The object was read from the directory of loose objects.
    LooseRead(Result<Option<(ObjectKind, Vec<u8>)>, GitError>),
    /// The object that it builds on was looked for.
    BaseFound(Result<Option<(ObjectKind, Vec<u8>)>, GitError>),
    /// The packs were searched with the object that it builds on at hand.
    SearchedWithBase(FindStep),
}

/// What is to be done next.
#[derive(Debug)]
pub enum FindAction {
    Search,
    LoadPack(PackId),
    Refresh,
    AskLoose(usize),
    ReadLoose(usize),
    /// Looks for this object, one level deeper.
    FindBase(ObjectId),
    /// Searches the packs with this object at hand.
    SearchWithBase(ObjectKind, Vec<u8>),
    Give(Option<(ObjectKind, Vec<u8>)>),
    Fail(GitError),
}

/// The search for an object, at some depth.
#[derive(Debug)]
pub struct Finding {
    pub recursion: usize,
    pub num_loose_dbs: usize,
}

/// What follows an event.
pub open spec fn follows(f: Finding, event: FindEvent, action: FindAction) -> bool {
    match event {
        FindEvent::Begin => if f.recursion >= MAX_RECURSION_DEPTH {
            action matches FindAction::Fail(e) && e is Gen
        } else {
            action is Search
        },
        FindEvent::Searched(FindStep::Found(kind, data)) => action == FindAction::Give(Some((kind, data))),
        FindEvent::Searched(FindStep::Failed(e)) => action == FindAction::Fail(e),
        FindEvent::Searched(FindStep::NeedsPack(id)) => action == FindAction::LoadPack(id),
        FindEvent::Searched(FindStep::NeedsBase(id)) => action == FindAction::FindBase(id),
        FindEvent::Searched(FindStep::NotPacked) => if f.num_loose_dbs > 0 {
            action == FindAction::AskLoose(0)
        } else {
            action is Refresh
        },
        FindEvent::PackLoaded(Ok(true)) => action is Search,
        FindEvent::PackLoaded(Ok(false)) => action is Refresh,
        FindEvent::PackLoaded(Err(_)) => action matches FindAction::Fail(e) && e is Gen,
        FindEvent::Refreshed(Ok(true)) => action is Search,
        FindEvent::Refreshed(Ok(false)) => action == FindAction::Give(None),
        FindEvent::Refreshed(Err(e)) => action == FindAction::Fail(e),
        FindEvent::LooseAsked(k, true) => action == FindAction::ReadLoose(k),
        FindEvent::LooseAsked(k, false) => if k + 1 < f.num_loose_dbs {
            action == FindAction::AskLoose((k + 1) as usize)
        } else {
            action is Refresh
        },
        FindEvent::LooseRead(Ok(o)) => action == FindAction::Give(o),
        FindEvent::LooseRead(Err(_)) => action matches FindAction::Fail(e) && e is Gen,
        FindEvent::BaseFound(Ok(Some((kind, data)))) => action == FindAction::SearchWithBase(kind, data),
        FindEvent::BaseFound(_) => action matches FindAction::Fail(e) && e is Gen,
        FindEvent::SearchedWithBase(FindStep::Found(kind, data)) => action == FindAction::Give(
            Some((kind, data)),
        ),
        FindEvent::SearchedWithBase(FindStep::NeedsBase(id)) => action == FindAction::Fail(
            GitError::DeltaBaseUnresolved(id),
        ),
        FindEvent::SearchedWithBase(FindStep::Failed(e)) => action == FindAction::Fail(e),
        FindEvent::SearchedWithBase(_) => action matches FindAction::Fail(e) && e is Gen,
    }
}

impl Finding {
    /// What is to be done after an event: the packs are searched first, then the directories of loose objects in
    /// their order, and then more packs are looked for; an object that builds on one elsewhere waits for that.
    pub fn next(&self, event: FindEvent) -> (r: FindAction)
        ensures
            follows(*self, event, r),
    {
        match event {
            FindEvent::Begin => if self.recursion >= MAX_RECURSION_DEPTH {
                FindAction::Fail(GitError::Gen)
            } else {
                FindAction::Search
            },
            FindEvent::Searched(step) => match step {
                FindStep::Found(kind, data) => FindAction::Give(Some((kind, data))),
                FindStep::Failed(e) => FindAction::Fail(e),
                FindStep::NeedsPack(id) => FindAction::LoadPack(id),
                FindStep::NeedsBase(id) => FindAction::FindBase(id),
                FindStep::NotPacked => if self.num_loose_dbs > 0 {
                    FindAction::AskLoose(0)
                } else {
                    FindAction::Refresh
                },
            },
            FindEvent::PackLoaded(loaded) => match loaded {
                Ok(there) => if there {
                    FindAction::Search
                } else {
                    FindAction::Refresh
                },
                Err(_) => FindAction::Fail(GitError::Gen),
            },
            FindEvent::Refreshed(refreshed) => match refreshed {
                Ok(more) => if more {
                    FindAction::Search
                } else {
                    FindAction::Give(None)
                },
                Err(e) => FindAction::Fail(e),
            },
            FindEvent::LooseAsked(k, there) => if there {
                FindAction::ReadLoose(k)
            } else if k < self.num_loose_dbs && k + 1 < self.num_loose_dbs {
                FindAction::AskLoose(k + 1)
            } else {
                FindAction::Refresh
            },
            FindEvent::LooseRead(read) => match read {
                Ok(o) => FindAction::Give(o),
                Err(_) => FindAction::Fail(GitError::Gen),
            },
            FindEvent::BaseFound(base) => match base {
                Ok(Some((kind, data))) => FindAction::SearchWithBase(kind, data),
                Ok(None) => FindAction::Fail(GitError::Gen),
                Err(_) => FindAction::Fail(GitError::Gen),
            },
            FindEvent::SearchedWithBase(step) => match step {
                FindStep::Found(kind, data) => FindAction::Give(Some((kind, data))),
                FindStep::NeedsBase(id) => FindAction::Fail(GitError::DeltaBaseUnresolved(id)),
                FindStep::Failed(e) => FindAction::Fail(e),
                FindStep::NotPacked => FindAction::Fail(GitError::Gen),
                FindStep::NeedsPack(_) => FindAction::Fail(GitError::Gen),
            },
        }
    }
}

/// An object is given only where it was found in a pack or read from a directory of loose objects, and none only
/// where there are no more packs to look for or it vanished.
pub proof fn law_given_only_what_was_found(f: Finding, event: FindEvent, o: Option<(ObjectKind, Vec<u8>)>)
    requires
        follows(f, event, FindAction::Give(o)),
    ensures
        match o {
            Some((kind, data)) => event == FindEvent::Searched(FindStep::Found(kind, data)) || event
                == FindEvent::SearchedWithBase(FindStep::Found(kind, data)) || event
                == FindEvent::LooseRead(Ok(o)),
            None => event == FindEvent::Refreshed(Ok(false)) || event == FindEvent::LooseRead(Ok(o)),
        },
{
}

} // verus!
