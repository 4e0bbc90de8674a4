//! Which packs are in which slots, and how that follows the files on disk.
use crate::bytes::{eq_bytes, lit, to_vec};
use crate::git::error::GitError;
use crate::git::odb::slots::{holds, IndexFileBundle, Loading, OnDiskFile, OnDiskFileState, Slot};
use crate::path::{extension, extension_of, file_name, name_of, paths_view};
use vstd::prelude::*;

verus! {

/// The largest number of slots.
pub const MAX_SLOTS: usize = 32767;

/// How many slots there are for `num_packs` packs, where `candidate` is that number with some room to grow.
pub fn slot_count(num_packs: usize, candidate: usize) -> (r: Result<usize, GitError>)
    ensures
        r is Err <==> num_packs > MAX_SLOTS,
        r matches Err(e) ==> e is Io,
        r matches Ok(n) ==> n == (if candidate > MAX_SLOTS {
            num_packs
        } else {
            candidate
        }),
{
    if num_packs > MAX_SLOTS {
        return Err(GitError::Io);
    }
    if candidate > MAX_SLOTS {
        Ok(num_packs)
    } else {
        Ok(candidate)
    }
}

/// A pack in the slots.
#[derive(Debug, Clone, Copy, PartialEq, Eq, Structural)]
pub struct PackId {
    /// The slot.
    pub index: usize,
    /// The pack within an index of many packs.
    pub multipack_index: Option<u32>,
}

/// The number that tells the pack from all others.
pub open spec fn intrinsic_id(id: PackId) -> u32 {
    match id.multipack_index {
        None => id.index as u32,
        Some(m) => (id.index as u32 | 0x8000u32) | (m << 16u32),
    }
}

impl PackId {
    /// The number that tells the pack from all others.
    pub fn to_intrinsic_pack_id(self) -> (r: u32)
        requires
            self.index < 32768,
        ensures
            r == intrinsic_id(self),
    {
        match self.multipack_index {
            None => self.index as u32,
            Some(m) => (self.index as u32 | 0x8000u32) | (m << 16u32),
        }
    }
}

/// Two packs have different numbers, as long as there are no more than 65536 packs to an index.
pub proof fn law_intrinsic_ids_differ(a: PackId, b: PackId)
    requires
        a.index < 32768,
        b.index < 32768,
        a.multipack_index matches Some(m) ==> m < 65536,
        b.multipack_index matches Some(m) ==> m < 65536,
        intrinsic_id(a) == intrinsic_id(b),
    ensures
        a == b,
{
    let x = a.index as u32;
    let y = b.index as u32;
    match (a.multipack_index, b.multipack_index) {
        (None, None) => {},
        (Some(m), None) => {
            assert((x | 0x8000u32) | (m << 16u32) != y) by (bit_vector)
                requires
                    x < 32768u32,
                    y < 32768u32,
                    m < 65536u32,
            ;
        },
        (None, Some(n)) => {
            assert((y | 0x8000u32) | (n << 16u32) != x) by (bit_vector)
                requires
                    x < 32768u32,
                    y < 32768u32,
                    n < 65536u32,
            ;
        },
        (Some(m), Some(n)) => {
            assert((x | 0x8000u32) | (m << 16u32) == (y | 0x8000u32) | (n << 16u32) ==> x == y && m == n)
                by (bit_vector)
                requires
                    x < 32768u32,
                    y < 32768u32,
                    m < 65536u32,
                    n < 65536u32,
            ;
        },
    }
}

/// What a reader saw of the slots: where it changed, they are to be looked at again.
#[derive(Debug, Clone, Copy, PartialEq, Eq, Structural)]
pub struct SlotIndexMarker {
    pub generation: u32,
    /// Which of the indices of slots it was.
    pub revision: u64,
    /// How many packs' indices were read by then.
    pub loaded_indices: usize,
}

/// The slots in use, in the order in which they are searched.
#[derive(Debug)]
pub struct SlotMapIndex {
    pub slot_indices: Vec<usize>,
    /// The directories of loose objects; none before the first look at the disk.
    pub loose_dbs: Vec<Vec<u8>>,
    pub generation: u32,
    pub next_index_to_load: usize,
    pub loaded_indices: usize,
    pub revision: u64,
}

impl SlotMapIndex {
    /// The slots in use are `n` slots at most and differ.
    pub open spec fn wf(self, n: nat) -> bool {
        &&& self.slot_indices@.no_duplicates()
        &&& forall|i: int| 0 <= i < self.slot_indices@.len() ==> (#[trigger] self.slot_indices@[i]) < n
        &&& self.next_index_to_load <= self.slot_indices@.len()
    }

    /// No slot is in use.
    pub fn new() -> (r: SlotMapIndex)
        ensures
            r.wf(0),
            r.slot_indices@.len() == 0,
            r.loose_dbs@.len() == 0,
            r.generation == 0,
            r.loaded_indices == 0,
            r.revision == 0,
    {
        SlotMapIndex {
            slot_indices: Vec::new(),
            loose_dbs: Vec::new(),
            generation: 0,
            next_index_to_load: 0,
            loaded_indices: 0,
            revision: 0,
        }
    }

    /// Whether the disk was looked at.
    pub fn is_initialized(&self) -> (r: bool)
        ensures
            r == (self.loose_dbs@.len() > 0),
    {
        self.loose_dbs.len() > 0
    }

    /// What a reader sees of the slots.
    pub fn marker(&self) -> (r: SlotIndexMarker)
        ensures
            r == (SlotIndexMarker {
                generation: self.generation,
                revision: self.revision,
                loaded_indices: self.loaded_indices,
            }),
    {
        SlotIndexMarker {
            generation: self.generation,
            revision: self.revision,
            loaded_indices: self.loaded_indices,
        }
    }
}

/// The slot in use that holds the pack with the index at `path`, of the first `k` in use.
pub open spec fn slot_of(slots: Seq<Slot>, used: Seq<usize>, path: Seq<u8>, k: int) -> Option<usize>
    decreases k,
{
    if k <= 0 {
        None
    } else if holds(slots[used[k - 1] as int], path) {
        Some(used[k - 1])
    } else {
        slot_of(slots, used, path, k - 1)
    }
}

/// The slot in use that holds the pack with the index at `path`.
pub open spec fn known(slots: Seq<Slot>, used: Seq<usize>, path: Seq<u8>) -> Option<usize> {
    slot_of(slots, used, path, used.len() as int)
}

/// The path `paths[i]` is in a slot, and occurs for the first time.
pub open spec fn is_kept(slots: Seq<Slot>, used: Seq<usize>, paths: Seq<Seq<u8>>, i: int) -> bool {
    known(slots, used, paths[i]) is Some && !paths.take(i).contains(paths[i])
}

/// The slots of those of the first `k` paths that stay.
pub open spec fn kept_slots(slots: Seq<Slot>, used: Seq<usize>, paths: Seq<Seq<u8>>, k: int) -> Seq<usize>
    decreases k,
{
    if k <= 0 {
        Seq::empty()
    } else if is_kept(slots, used, paths, k - 1) {
        kept_slots(slots, used, paths, k - 1).push(known(slots, used, paths[k - 1])->0)
    } else {
        kept_slots(slots, used, paths, k - 1)
    }
}

/// Those of the first `k` paths that are new.
pub open spec fn new_paths(slots: Seq<Slot>, used: Seq<usize>, paths: Seq<Seq<u8>>, k: int) -> Seq<Seq<u8>>
    decreases k,
{
    if k <= 0 {
        Seq::empty()
    } else if is_kept(slots, used, paths, k - 1) {
        new_paths(slots, used, paths, k - 1)
    } else {
        new_paths(slots, used, paths, k - 1).push(paths[k - 1])
    }
}

/// Those of the first `k` paths that stay.
pub open spec fn kept_paths(slots: Seq<Slot>, used: Seq<usize>, paths: Seq<Seq<u8>>, k: int) -> Seq<Seq<u8>>
    decreases k,
{
    if k <= 0 {
        Seq::empty()
    } else if is_kept(slots, used, paths, k - 1) {
        kept_paths(slots, used, paths, k - 1).push(paths[k - 1])
    } else {
        kept_paths(slots, used, paths, k - 1)
    }
}

/// The paths in the order in which their slots are searched: first those that stay, then the new ones.
pub open spec fn in_slot_order(slots: Seq<Slot>, used: Seq<usize>, paths: Seq<Seq<u8>>) -> Seq<Seq<u8>> {
    kept_paths(slots, used, paths, paths.len() as int) + new_paths(slots, used, paths, paths.len() as int)
}

/// How many of the slots hold a pack whose index was read.
pub open spec fn count_loaded(slots: Seq<Slot>, used: Seq<usize>) -> int
    decreases used.len(),
{
    if used.len() == 0 {
        0
    } else {
        count_loaded(slots, used.drop_last()) + (if slots[used.last() as int].files matches Some(b)
            && b.index.state.contents() is Some {
            1int
        } else {
            0int
        })
    }
}

/// The slots of those packs that are no longer on disk.
pub open spec fn lost_slots(slots: Seq<Slot>, used: Seq<usize>, paths: Seq<Seq<u8>>) -> Seq<usize>
    decreases used.len(),
{
    if used.len() == 0 {
        Seq::empty()
    } else {
        let rest = lost_slots(slots, used.drop_last(), paths);
        if slots[used.last() as int].files matches Some(b) && !paths.contains(b.index.path@) {
            rest.push(used.last())
        } else {
            rest
        }
    }
}

/// The largest of the slots in use.
pub open spec fn largest(used: Seq<usize>) -> int
    decreases used.len(),
{
    if used.len() == 0 {
        -1
    } else {
        let m = largest(used.drop_last());
        if used.last() > m {
            used.last() as int
        } else {
            m
        }
    }
}

/// The slot after the largest in use, from which on free ones are looked for.
pub open spec fn search_start(used: Seq<usize>, n: int) -> int {
    (largest(used) + 1) % n
}

/// The slot that is `c` slots after `start`, in a circle.
pub open spec fn circle(start: int, c: int, n: int) -> int {
    (start + c) % n
}

/// How many slots are passed, `c` at least, up to one that takes in the pack with the index at `path`; `n` where
/// there is none.
pub open spec fn free_after(
    slots: Seq<Slot>,
    taken: Seq<usize>,
    start: int,
    c: int,
    path: Seq<u8>,
    stable: bool,
) -> int
    decreases slots.len() - c,
{
    let s = circle(start, c, slots.len() as int);
    if c >= slots.len() {
        slots.len() as int
    } else if !taken.contains(s as usize) && slots[s].accepts(path, stable) {
        c
    } else {
        free_after(slots, taken, start, c + 1, path, stable)
    }
}

/// The slots that the paths from `i` on get, where `c` slots were passed already; `None` where there are too few.
pub open spec fn placed(
    slots: Seq<Slot>,
    taken: Seq<usize>,
    start: int,
    c: int,
    paths: Seq<Seq<u8>>,
    i: int,
    stable: bool,
) -> Option<Seq<usize>>
    decreases paths.len() - i,
{
    if i >= paths.len() || i < 0 {
        Some(Seq::empty())
    } else {
        let d = free_after(slots, taken, start, c, paths[i], stable);
        if d >= slots.len() {
            None
        } else {
            let s = circle(start, d, slots.len() as int) as usize;
            match placed(slots, taken.push(s), start, d + 1, paths, i + 1, stable) {
                None => None,
                Some(rest) => Some(seq![s] + rest),
            }
        }
    }
}

/// The slots that the paths from `i` on get, up to the first that gets none.
pub open spec fn placed_until(
    slots: Seq<Slot>,
    taken: Seq<usize>,
    start: int,
    c: int,
    paths: Seq<Seq<u8>>,
    i: int,
    stable: bool,
) -> Seq<usize>
    decreases paths.len() - i,
{
    if i >= paths.len() || i < 0 {
        Seq::empty()
    } else {
        let d = free_after(slots, taken, start, c, paths[i], stable);
        if d >= slots.len() {
            Seq::empty()
        } else {
            let s = circle(start, d, slots.len() as int) as usize;
            seq![s] + placed_until(slots, taken.push(s), start, d + 1, paths, i + 1, stable)
        }
    }
}

/// One of the slots holds something.
pub open spec fn some_filled(slots: Seq<Slot>, v: Seq<usize>) -> bool {
    exists|k: int| 0 <= k < v.len() && slots[(#[trigger] v[k]) as int].files is Some
}

/// How the slots follow the disk.
#[derive(Debug)]
pub struct Plan {
    /// The slots of packs that stay, in the order of the disk.
    pub kept: Vec<usize>,
    /// How many of those had their index read.
    pub loaded: usize,
    /// The slots of new packs, with the paths of their indices.
    pub added: Vec<usize>,
    pub added_paths: Vec<Vec<u8>>,
    /// The slots of packs that are gone.
    pub lost: Vec<usize>,
    pub generation: u32,
    /// The slots that are in use then.
    pub slot_indices: Vec<usize>,
    /// These are the slots that were in use.
    pub index_unchanged: bool,
}

/// `p` is how `slots`, of which those of `index` are in use, follow the packs with the indices at `paths`.
pub open spec fn is_plan(p: Plan, slots: Seq<Slot>, index: SlotMapIndex, paths: Seq<Seq<u8>>, stable: bool) -> bool {
    let used = index.slot_indices@;
    let n = paths.len() as int;
    &&& p.kept@ == kept_slots(slots, used, paths, n)
    &&& p.loaded == count_loaded(slots, p.kept@)
    &&& paths_view(p.added_paths@) == new_paths(slots, used, paths, n)
    &&& placed(
        slots,
        p.kept@,
        search_start(used, slots.len() as int),
        0,
        new_paths(slots, used, paths, n),
        0,
        stable,
    ) == Some(p.added@)
    &&& p.lost@ == lost_slots(slots, used, paths)
    &&& p.slot_indices@ == p.kept@ + p.added@
    &&& p.index_unchanged == (p.slot_indices@ == used)
    &&& p.generation == index.generation + (if some_filled(slots, p.added@) {
        1int
    } else {
        0int
    })
}

/// The slots cannot follow the packs with the indices at `paths` to the end: there are too few of them, or there is no
/// further generation and one is needed.
pub open spec fn no_plan(slots: Seq<Slot>, index: SlotMapIndex, paths: Seq<Seq<u8>>, stable: bool) -> bool {
    let used = index.slot_indices@;
    let n = paths.len() as int;
    match placed(
        slots,
        kept_slots(slots, used, paths, n),
        search_start(used, slots.len() as int),
        0,
        new_paths(slots, used, paths, n),
        0,
        stable,
    ) {
        None => true,
        Some(v) => some_filled(slots, v) && index.generation == u32::MAX,
    }
}

/// Whether `v` holds `x`.
fn contains_slot(v: &Vec<usize>, x: usize) -> (r: bool)
    ensures
        r == v@.contains(x),
{
    let mut i: usize = 0;
    while i < v.len()
        invariant
            i <= v@.len(),
            forall|j: int| 0 <= j < i ==> v@[j] != x,
        decreases v.len() - i,
    {
        if v[i] == x {
            return true;
        }
        i += 1;
    }
    false
}

/// Whether one of the first `k` paths is `x`.
fn contains_path(v: &Vec<Vec<u8>>, k: usize, x: &[u8]) -> (r: bool)
    requires
        k <= v@.len(),
    ensures
        r == paths_view(v@).take(k as int).contains(x@),
{
    let ghost all = paths_view(v@).take(k as int);
    let mut i: usize = 0;
    while i < k
        invariant
            i <= k <= v@.len(),
            all == paths_view(v@).take(k as int),
            forall|j: int| 0 <= j < i ==> all[j] != x@,
        decreases k - i,
    {
        assert(all[i as int] == v@[i as int]@);
        if eq_bytes(v[i].as_slice(), x) {
            return true;
        }
        i += 1;
    }
    false
}

/// The slot in use that holds the pack with the index at `path`.
fn find_slot(slots: &Vec<Slot>, used: &Vec<usize>, path: &[u8]) -> (r: Option<usize>)
    requires
        forall|i: int| 0 <= i < used@.len() ==> (#[trigger] used@[i]) < slots@.len(),
    ensures
        r == known(slots@, used@, path@),
{
    let mut k: usize = used.len();
    while k > 0
        invariant
            k <= used@.len(),
            forall|i: int| 0 <= i < used@.len() ==> (#[trigger] used@[i]) < slots@.len(),
            known(slots@, used@, path@) == slot_of(slots@, used@, path@, k as int),
        decreases k,
    {
        let s = used[k - 1];
        let same = match &slots[s].files {
            Some(b) => eq_bytes(b.index_path(), path),
            None => false,
        };
        if same {
            return Some(s);
        }
        k -= 1;
    }
    None
}

/// The slots that stay, how many of them had their index read, and the paths that are new.
fn sort_out(slots: &Vec<Slot>, used: &Vec<usize>, paths: &Vec<Vec<u8>>) -> (r: (
    Vec<usize>,
    usize,
    Vec<Vec<u8>>,
))
    requires
        forall|i: int| 0 <= i < used@.len() ==> (#[trigger] used@[i]) < slots@.len(),
    ensures
        r.0@ == kept_slots(slots@, used@, paths_view(paths@), paths@.len() as int),
        r.1 == count_loaded(slots@, r.0@),
        paths_view(r.2@) == new_paths(slots@, used@, paths_view(paths@), paths@.len() as int),
{
    let ghost all = paths_view(paths@);
    let mut kept: Vec<usize> = Vec::new();
    let mut fresh: Vec<Vec<u8>> = Vec::new();
    let mut loaded: usize = 0;
    let mut k: usize = 0;
    assert(paths_view(fresh@) =~= Seq::<Seq<u8>>::empty());
    while k < paths.len()
        invariant
            k <= paths@.len(),
            all == paths_view(paths@),
            forall|i: int| 0 <= i < used@.len() ==> (#[trigger] used@[i]) < slots@.len(),
            kept@ == kept_slots(slots@, used@, all, k as int),
            loaded == count_loaded(slots@, kept@),
            loaded <= kept@.len() <= k,
            paths_view(fresh@) == new_paths(slots@, used@, all, k as int),
        decreases paths.len() - k,
    {
        let path = paths[k].as_slice();
        assert(path@ == all[k as int]);
        let again = contains_path(paths, k, path);
        let slot = find_slot(slots, used, path);
        let ghost before = paths_view(fresh@);
        let ghost earlier = kept@;
        match slot {
            Some(s) if !again => {
                proof {
                    lemma_slot_of(slots@, used@, path@, used@.len() as int);
                }
                let is_loaded = match &slots[s].files {
                    Some(b) => b.index_is_loaded(),
                    None => false,
                };
                kept.push(s);
                assert(kept@.drop_last() =~= earlier);
                if is_loaded {
                    loaded += 1;
                }
            },
            _ => {
                fresh.push(to_vec(path));
                assert(paths_view(fresh@) =~= before.push(path@));
            },
        }
        k += 1;
    }
    (kept, loaded, fresh)
}

/// The slot that holds a pack is one in use.
proof fn lemma_slot_of(slots: Seq<Slot>, used: Seq<usize>, path: Seq<u8>, k: int)
    requires
        0 <= k <= used.len(),
    ensures
        slot_of(slots, used, path, k) matches Some(s) ==> used.contains(s) && holds(slots[s as int], path),
    decreases k,
{
    if k > 0 && !holds(slots[used[k - 1] as int], path) {
        lemma_slot_of(slots, used, path, k - 1);
    }
}

/// The slots of packs that are no longer on disk.
fn find_lost(slots: &Vec<Slot>, used: &Vec<usize>, paths: &Vec<Vec<u8>>) -> (r: Vec<usize>)
    requires
        forall|i: int| 0 <= i < used@.len() ==> (#[trigger] used@[i]) < slots@.len(),
    ensures
        r@ == lost_slots(slots@, used@, paths_view(paths@)),
{
    let mut out: Vec<usize> = Vec::new();
    let mut k: usize = 0;
    assert(paths_view(paths@).take(paths@.len() as int) =~= paths_view(paths@));
    while k < used.len()
        invariant
            k <= used@.len(),
            paths_view(paths@).take(paths@.len() as int) == paths_view(paths@),
            forall|i: int| 0 <= i < used@.len() ==> (#[trigger] used@[i]) < slots@.len(),
            out@ == lost_slots(slots@, used@.take(k as int), paths_view(paths@)),
        decreases used.len() - k,
    {
        proof {
            assert(used@.take(k + 1).drop_last() =~= used@.take(k as int));
            assert(used@.take(k + 1).last() == used@[k as int]);
        }
        let gone = match &slots[used[k]].files {
            Some(b) => !contains_path(paths, paths.len(), b.index_path()),
            None => false,
        };
        if gone {
            out.push(used[k]);
        }
        k += 1;
    }
    assert(used@.take(used@.len() as int) =~= used@);
    out
}

/// The slot after the largest in use.
fn first_to_try(used: &Vec<usize>, n: usize) -> (r: usize)
    requires
        n > 0,
        forall|i: int| 0 <= i < used@.len() ==> (#[trigger] used@[i]) < n,
    ensures
        r == search_start(used@, n as int),
        r < n,
{
    let mut top: usize = 0;
    let mut k: usize = 0;
    while k < used.len()
        invariant
            k <= used@.len(),
            n > 0,
            forall|i: int| 0 <= i < used@.len() ==> (#[trigger] used@[i]) < n,
            top <= n,
            top == largest(used@.take(k as int)) + 1,
        decreases used.len() - k,
    {
        proof {
            assert(used@.take(k + 1).drop_last() =~= used@.take(k as int));
            assert(used@.take(k + 1).last() == used@[k as int]);
        }
        if used[k] + 1 > top {
            top = used[k] + 1;
        }
        k += 1;
    }
    assert(used@.take(used@.len() as int) =~= used@);
    top % n
}

/// The slots that `paths` get, up to the first that gets none, and whether all get one.
fn place(
    slots: &Vec<Slot>,
    kept: &Vec<usize>,
    start: usize,
    paths: &Vec<Vec<u8>>,
    stable: bool,
) -> (r: (Vec<usize>, bool))
    requires
        start < slots@.len(),
        slots@.len() <= MAX_SLOTS,
    ensures
        r.1 <==> placed(slots@, kept@, start as int, 0, paths_view(paths@), 0, stable) is Some,
        r.1 ==> placed(slots@, kept@, start as int, 0, paths_view(paths@), 0, stable) == Some(r.0@),
        r.0@ == placed_until(slots@, kept@, start as int, 0, paths_view(paths@), 0, stable),
{
    let n = slots.len();
    let ghost all = paths_view(paths@);
    let ghost goal = placed(slots@, kept@, start as int, 0, all, 0, stable);
    let ghost until = placed_until(slots@, kept@, start as int, 0, all, 0, stable);
    let mut out: Vec<usize> = Vec::new();
    let mut c: usize = 0;
    let mut i: usize = 0;
    proof {
        assert(kept@ + out@ =~= kept@);
        assert(out@ + until =~= until);
        if let Some(g) = goal {
            assert(out@ + g =~= g);
        }
    }
    while i < paths.len()
        invariant
            i <= paths@.len(),
            c <= n,
            n == slots@.len(),
            start < n <= MAX_SLOTS,
            all == paths_view(paths@),
            goal == placed(slots@, kept@, start as int, 0, all, 0, stable),
            goal == (match placed(slots@, kept@ + out@, start as int, c as int, all, i as int, stable) {
                None => None,
                Some(rest) => Some(out@ + rest),
            }),
            until == placed_until(slots@, kept@, start as int, 0, all, 0, stable),
            until == out@ + placed_until(slots@, kept@ + out@, start as int, c as int, all, i as int, stable),
        decreases paths.len() - i,
    {
        let path = paths[i].as_slice();
        let ghost taken = kept@ + out@;
        let ghost before = out@;
        assert(path@ == all[i as int]);
        let mut d: usize = c;
        let mut found = false;
        let mut s: usize = 0;
        while d < n && !found
            invariant
                c <= d <= n,
                n == slots@.len(),
                start < n <= MAX_SLOTS,
                taken == kept@ + out@,
                out@ == before,
                path@ == all[i as int],
                free_after(slots@, taken, start as int, c as int, path@, stable) == free_after(
                    slots@,
                    taken,
                    start as int,
                    d as int,
                    path@,
                    stable,
                ),
                found ==> d < n && s == circle(start as int, d as int, n as int) && !taken.contains(s)
                    && slots@[s as int].accepts(path@, stable),
            decreases n - d + (if found { 0int } else { 1 }),
        {
            s = (start + d) % n;
            let in_kept = contains_slot(kept, s);
            let in_out = contains_slot(&out, s);
            proof {
                lemma_contains_either(kept@, out@, s);
            }
            if !in_kept && !in_out && slots[s].is_free_for(path, stable) {
                found = true;
            } else {
                d += 1;
            }
        }
        if !found {
            assert(out@ + Seq::<usize>::empty() =~= out@);
            return (out, false);
        }
        out.push(s);
        proof {
            assert(kept@ + out@ =~= taken.push(s));
            let further = placed_until(slots@, taken.push(s), start as int, d + 1, all, i + 1, stable);
            assert(before + (seq![s] + further) =~= out@ + further);
            if let Some(rest) = placed(slots@, taken.push(s), start as int, d + 1, all, i + 1, stable) {
                assert(before + (seq![s] + rest) =~= out@ + rest);
            }
        }
        c = d + 1;
        i += 1;
    }
    assert(out@ + Seq::<usize>::empty() =~= out@);
    (out, true)
}

/// What is in both together is in one of them.
proof fn lemma_contains_either(a: Seq<usize>, b: Seq<usize>, x: usize)
    ensures
        (a + b).contains(x) <==> a.contains(x) || b.contains(x),
{
    if a.contains(x) {
        let k = choose|k: int| 0 <= k < a.len() && a[k] == x;
        assert((a + b)[k] == x);
    }
    if b.contains(x) {
        let k = choose|k: int| 0 <= k < b.len() && b[k] == x;
        assert((a + b)[a.len() + k] == x);
    }
    if (a + b).contains(x) {
        let k = choose|k: int| 0 <= k < (a + b).len() && (a + b)[k] == x;
        if k < a.len() {
            assert(a[k] == x);
        } else {
            assert(b[k - a.len()] == x);
        }
    }
}

/// Whether one of the slots holds something.
fn any_filled(slots: &Vec<Slot>, v: &Vec<usize>) -> (r: bool)
    requires
        forall|i: int| 0 <= i < v@.len() ==> (#[trigger] v@[i]) < slots@.len(),
    ensures
        r == some_filled(slots@, v@),
{
    let mut i: usize = 0;
    while i < v.len()
        invariant
            i <= v@.len(),
            forall|i: int| 0 <= i < v@.len() ==> (#[trigger] v@[i]) < slots@.len(),
            forall|k: int| 0 <= k < i ==> slots@[(#[trigger] v@[k]) as int].files is None,
        decreases v.len() - i,
    {
        if slots[v[i]].files.is_some() {
            return true;
        }
        i += 1;
    }
    false
}

/// Whether both hold the same.
fn same_slots(a: &Vec<usize>, b: &Vec<usize>) -> (r: bool)
    ensures
        r == (a@ == b@),
{
    if a.len() != b.len() {
        return false;
    }
    let mut i: usize = 0;
    while i < a.len()
        invariant
            i <= a@.len(),
            a@.len() == b@.len(),
            forall|j: int| 0 <= j < i ==> a@[j] == b@[j],
        decreases a.len() - i,
    {
        if a[i] != b[i] {
            return false;
        }
        i += 1;
    }
    assert(a@ =~= b@);
    true
}

/// Slots that are given out are slots, and differ from each other and from those taken.
pub proof fn lemma_placed(
    slots: Seq<Slot>,
    taken: Seq<usize>,
    start: int,
    c: int,
    paths: Seq<Seq<u8>>,
    i: int,
    stable: bool,
)
    requires
        0 <= start < slots.len(),
        slots.len() <= MAX_SLOTS,
        0 <= c,
        0 <= i <= paths.len(),
    ensures
        placed(slots, taken, start, c, paths, i, stable) matches Some(v) ==> {
            &&& v.len() == paths.len() - i
            &&& v.no_duplicates()
            &&& forall|k: int|
                0 <= k < v.len() ==> (#[trigger] v[k]) < slots.len() && !taken.contains(v[k])
                    && slots[v[k] as int].accepts(paths[i + k], stable)
        },
{
    lemma_placed_until(slots, taken, start, c, paths, i, stable);
    lemma_all_placed(slots, taken, start, c, paths, i, stable);
}

/// Where all paths get a slot, these are the slots that they get.
proof fn lemma_all_placed(
    slots: Seq<Slot>,
    taken: Seq<usize>,
    start: int,
    c: int,
    paths: Seq<Seq<u8>>,
    i: int,
    stable: bool,
)
    requires
        0 <= i <= paths.len(),
    ensures
        placed(slots, taken, start, c, paths, i, stable) matches Some(v) ==> v == placed_until(
            slots,
            taken,
            start,
            c,
            paths,
            i,
            stable,
        ) && v.len() == paths.len() - i,
    decreases paths.len() - i,
{
    if i < paths.len() {
        let d = free_after(slots, taken, start, c, paths[i], stable);
        let s = circle(start, d, slots.len() as int) as usize;
        lemma_all_placed(slots, taken.push(s), start, d + 1, paths, i + 1, stable);
    }
}

/// Slots that are given out are slots, and differ from each other and from those taken.
proof fn lemma_placed_until(
    slots: Seq<Slot>,
    taken: Seq<usize>,
    start: int,
    c: int,
    paths: Seq<Seq<u8>>,
    i: int,
    stable: bool,
)
    requires
        0 <= start < slots.len(),
        slots.len() <= MAX_SLOTS,
        0 <= c,
        0 <= i <= paths.len(),
    ensures
        ({
            let v = placed_until(slots, taken, start, c, paths, i, stable);
            &&& v.len() <= paths.len() - i
            &&& v.no_duplicates()
            &&& forall|k: int|
                0 <= k < v.len() ==> (#[trigger] v[k]) < slots.len() && !taken.contains(v[k])
                    && slots[v[k] as int].accepts(paths[i + k], stable)
        }),
    decreases paths.len() - i,
{
    if i < paths.len() {
        let d = free_after(slots, taken, start, c, paths[i], stable);
        lemma_free_after(slots, taken, start, c, paths[i], stable);
        if d < slots.len() {
            let n = slots.len() as int;
            let s = circle(start, d, n) as usize;
            lemma_placed_until(slots, taken.push(s), start, d + 1, paths, i + 1, stable);
            let rest = placed_until(slots, taken.push(s), start, d + 1, paths, i + 1, stable);
            assert(seq![s] + rest == placed_until(slots, taken, start, c, paths, i, stable));
            let v = seq![s] + rest;
            assert(taken.push(s).contains(s)) by {
                assert(taken.push(s)[taken.len() as int] == s);
            }
            assert forall|k: int| 0 <= k < v.len() implies (#[trigger] v[k]) < slots.len()
                && !taken.contains(v[k]) && slots[v[k] as int].accepts(paths[i + k], stable) by {
                if k > 0 {
                    assert(v[k] == rest[k - 1]);
                    assert(!taken.push(s).contains(rest[k - 1]));
                    if taken.contains(rest[k - 1]) {
                        let w = choose|w: int| 0 <= w < taken.len() && taken[w] == rest[k - 1];
                        assert(taken.push(s)[w] == rest[k - 1]);
                    }
                }
            }
            assert forall|a: int, b: int| 0 <= a < v.len() && 0 <= b < v.len() && a != b implies v[a]
                != v[b] by {
                if a > 0 && b > 0 {
                    assert(v[a] == rest[a - 1] && v[b] == rest[b - 1]);
                } else if a > 0 {
                    assert(v[a] == rest[a - 1]);
                    assert(!taken.push(s).contains(rest[a - 1]));
                } else {
                    assert(v[b] == rest[b - 1]);
                    assert(!taken.push(s).contains(rest[b - 1]));
                }
            }
        }
    }
}

pub proof fn lemma_free_after(slots: Seq<Slot>, taken: Seq<usize>, start: int, c: int, path: Seq<u8>, stable: bool)
    requires
        0 <= start < slots.len(),
        0 <= c,
    ensures
        ({
            let d = free_after(slots, taken, start, c, path, stable);
            d < slots.len() ==> c <= d && 0 <= circle(start, d, slots.len() as int) < slots.len()
                && !taken.contains(circle(start, d, slots.len() as int) as usize) && slots[circle(
                start,
                d,
                slots.len() as int,
            )].accepts(path, stable)
        }),
    decreases slots.len() - c,
{
    if c < slots.len() {
        let s = circle(start, c, slots.len() as int);
        if !(!taken.contains(s as usize) && slots[s].accepts(path, stable)) {
            lemma_free_after(slots, taken, start, c + 1, path, stable);
        }
    }
}

/// How far the slots follow the disk where they cannot follow it to the end.
#[derive(Debug)]
pub struct Unfinished {
    /// The slots of packs that stay, in the order of the disk.
    pub kept: Vec<usize>,
    /// The slots of those of the new packs that get one, with the paths of their indices.
    pub added: Vec<usize>,
    pub added_paths: Vec<Vec<u8>>,
}

/// `u` is how far `slots`, of which those of `index` are in use, follow the packs with the indices at `paths`. No
/// slot gets a new pack where there is no further generation.
pub open spec fn is_unfinished(
    u: Unfinished,
    slots: Seq<Slot>,
    index: SlotMapIndex,
    paths: Seq<Seq<u8>>,
    stable: bool,
) -> bool {
    let used = index.slot_indices@;
    let n = paths.len() as int;
    let fresh = new_paths(slots, used, paths, n);
    &&& u.kept@ == kept_slots(slots, used, paths, n)
    &&& u.added@ == (if index.generation == u32::MAX {
        Seq::empty()
    } else {
        placed_until(slots, u.kept@, search_start(used, slots.len() as int), 0, fresh, 0, stable)
    })
    &&& paths_view(u.added_paths@) == fresh.take(u.added@.len() as int)
}

/// The first `n` of the paths.
fn first_paths(paths: Vec<Vec<u8>>, n: usize) -> (r: Vec<Vec<u8>>)
    requires
        n <= paths@.len(),
    ensures
        paths_view(r@) == paths_view(paths@).take(n as int),
{
    let ghost all = paths@;
    let mut out = paths;
    out.truncate(n);
    assert(paths_view(out@) =~= paths_view(all).take(n as int));
    out
}

/// Works out how the slots follow the disk: packs that are in slots stay there, new ones get the next free slots
/// after the largest in use. Where there are too few slots, or no further generation, the slots cannot follow to the
/// end.
pub fn plan_consolidation(slots: &Vec<Slot>, index: &SlotMapIndex, paths: &Vec<Vec<u8>>, needs_stable_indices: bool) -> (r: Result<
    Plan,
    Unfinished,
>)
    requires
        0 < slots@.len() <= MAX_SLOTS,
        index.wf(slots@.len()),
    ensures
        r matches Ok(p) ==> is_plan(p, slots@, *index, paths_view(paths@), needs_stable_indices),
        r matches Err(u) ==> is_unfinished(u, slots@, *index, paths_view(paths@), needs_stable_indices),
        r is Err <==> no_plan(slots@, *index, paths_view(paths@), needs_stable_indices),
{
    let (kept, loaded, added_paths) = sort_out(slots, &index.slot_indices, paths);
    let start = first_to_try(&index.slot_indices, slots.len());
    let (added, all_placed) = place(slots, &kept, start, &added_paths, needs_stable_indices);
    proof {
        lemma_placed_until(
            slots@,
            kept@,
            start as int,
            0,
            paths_view(added_paths@),
            0,
            needs_stable_indices,
        );
    }
    if !all_placed || (index.generation == u32::MAX && any_filled(slots, &added)) {
        let added = if index.generation == u32::MAX {
            Vec::new()
        } else {
            added
        };
        let n = added.len();
        assert(index.generation == u32::MAX ==> added@ =~= Seq::<usize>::empty());
        return Err(Unfinished { kept, added, added_paths: first_paths(added_paths, n) });
    }
    let generation = if any_filled(slots, &added) {
        index.generation + 1
    } else {
        index.generation
    };
    let lost = find_lost(slots, &index.slot_indices, paths);
    let mut slot_indices: Vec<usize> = Vec::new();
    slot_indices.extend_from_slice(kept.as_slice());
    slot_indices.extend_from_slice(added.as_slice());
    assert(slot_indices@ =~= kept@ + added@);
    let index_unchanged = same_slots(&slot_indices, &index.slot_indices);
    Ok(
        Plan {
            kept,
            loaded,
            added,
            added_paths,
            lost,
            generation,
            slot_indices,
            index_unchanged,
        },
    )
}

/// The pack is back.
pub open spec fn bundle_back(b: IndexFileBundle) -> IndexFileBundle {
    IndexFileBundle {
        index: OnDiskFile { path: b.index.path, state: b.index.state.is_back() },
        data: OnDiskFile { path: b.data.path, state: b.data.state.is_back() },
    }
}

/// The pack is gone.
pub open spec fn bundle_trashed(b: IndexFileBundle) -> IndexFileBundle {
    IndexFileBundle {
        index: OnDiskFile { path: b.index.path, state: b.index.state.is_trash() },
        data: OnDiskFile { path: b.data.path, state: b.data.state.is_trash() },
    }
}

/// The slot once its pack was seen on disk.
pub open spec fn refreshed(s: Slot, generation: u32) -> Slot {
    match s.files {
        Some(b) => if b.disposable() {
            Slot { files: Some(bundle_back(b)), generation }
        } else {
            s
        },
        None => s,
    }
}

/// The slot once its pack was not seen on disk.
pub open spec fn dropped(s: Slot, generation: u32, stable: bool) -> Slot {
    if stable {
        match s.files {
            Some(b) => Slot { files: Some(bundle_trashed(b)), generation: s.generation },
            None => s,
        }
    } else {
        Slot { files: None, generation }
    }
}

/// The slot holds a pack of which nothing was read.
pub open spec fn fresh_slot(s: Slot, path: Seq<u8>, generation: int) -> bool {
    holds(s, path) && s.generation == generation && (s.files matches Some(b) && b.index.state is Unloaded
        && b.data.state is Unloaded)
}

/// The generation of a slot that gets a new pack.
pub open spec fn new_generation(s: Slot, generation: u32) -> int {
    if s.files is Some {
        generation + 1
    } else {
        generation as int
    }
}

/// The packs of the slots `kept` were seen on disk.
fn refresh(slots: &mut Vec<Slot>, kept: &Vec<usize>, generation: u32)
    requires
        forall|i: int| 0 <= i < kept@.len() ==> (#[trigger] kept@[i]) < old(slots)@.len(),
    ensures
        final(slots)@.len() == old(slots)@.len(),
        forall|s: int|
            0 <= s < final(slots)@.len() ==> #[trigger] final(slots)@[s] == (if kept@.contains(s as usize) {
                refreshed(old(slots)@[s], generation)
            } else {
                old(slots)@[s]
            }),
{
    let ghost first = slots@;
    let n = slots.len();
    let mut i: usize = 0;
    while i < kept.len()
        invariant
            i <= kept@.len(),
            first == old(slots)@,
            n == first.len(),
            slots@.len() == first.len(),
            forall|i: int| 0 <= i < kept@.len() ==> (#[trigger] kept@[i]) < first.len(),
            forall|s: int|
                0 <= s < slots@.len() ==> #[trigger] slots@[s] == (if kept@.take(i as int).contains(
                    s as usize,
                ) {
                    refreshed(first[s], generation)
                } else {
                    first[s]
                }),
        decreases kept.len() - i,
    {
        let k = kept[i];
        let ghost before = slots@;
        slots[k].refresh(generation);
        proof {
            assert(slots@[k as int] == refreshed(before[k as int], generation));
            assert forall|s: int| 0 <= s < slots@.len() implies #[trigger] slots@[s] == (
            if kept@.take(i + 1).contains(s as usize) {
                refreshed(first[s], generation)
            } else {
                first[s]
            }) by {
                lemma_take_contains(kept@, i as int, s as usize);
                if s != k {
                    assert(slots@[s] == before[s]);
                }
            }
        }
        i += 1;
    }
    assert(kept@.take(kept@.len() as int) =~= kept@);
}

/// What is among one more is among the others, or the one.
proof fn lemma_take_contains(v: Seq<usize>, i: int, x: usize)
    requires
        0 <= i < v.len(),
    ensures
        v.take(i + 1).contains(x) <==> v.take(i).contains(x) || v[i] == x,
{
    let a = v.take(i);
    let b = v.take(i + 1);
    if a.contains(x) {
        let k = choose|k: int| 0 <= k < a.len() && a[k] == x;
        assert(b[k] == x);
    }
    if v[i] == x {
        assert(b[i] == x);
    }
    if b.contains(x) {
        let k = choose|k: int| 0 <= k < b.len() && b[k] == x;
        if k < i {
            assert(a[k] == x);
        }
    }
}

/// The packs of the slots `lost` were not seen on disk.
fn drop_lost(slots: &mut Vec<Slot>, lost: &Vec<usize>, generation: u32, stable: bool)
    requires
        forall|i: int| 0 <= i < lost@.len() ==> (#[trigger] lost@[i]) < old(slots)@.len(),
    ensures
        final(slots)@.len() == old(slots)@.len(),
        forall|s: int|
            0 <= s < final(slots)@.len() ==> #[trigger] final(slots)@[s] == (if lost@.contains(s as usize) {
                dropped(old(slots)@[s], generation, stable)
            } else {
                old(slots)@[s]
            }),
{
    let ghost first = slots@;
    let n = slots.len();
    let mut i: usize = 0;
    while i < lost.len()
        invariant
            i <= lost@.len(),
            first == old(slots)@,
            n == first.len(),
            slots@.len() == first.len(),
            forall|i: int| 0 <= i < lost@.len() ==> (#[trigger] lost@[i]) < first.len(),
            forall|s: int|
                0 <= s < slots@.len() ==> #[trigger] slots@[s] == (if lost@.take(i as int).contains(
                    s as usize,
                ) {
                    dropped(first[s], generation, stable)
                } else {
                    first[s]
                }),
        decreases lost.len() - i,
    {
        let k = lost[i];
        let ghost before = slots@;
        slots[k].drop_files(generation, stable);
        proof {
            assert(slots@[k as int] == dropped(before[k as int], generation, stable));
            assert forall|s: int| 0 <= s < slots@.len() implies #[trigger] slots@[s] == (
            if lost@.take(i + 1).contains(s as usize) {
                dropped(first[s], generation, stable)
            } else {
                first[s]
            }) by {
                lemma_take_contains(lost@, i as int, s as usize);
                if s != k {
                    assert(slots@[s] == before[s]);
                }
            }
        }
        i += 1;
    }
    assert(lost@.take(lost@.len() as int) =~= lost@);
}

impl Slot {
    /// The pack was seen on disk.
    fn refresh(&mut self, generation: u32)
        ensures
            *final(self) == refreshed(*old(self), generation),
    {
        let mut files: Option<IndexFileBundle> = None;
        std::mem::swap(&mut files, &mut self.files);
        if let Some(mut b) = files {
            let ghost before = b;
            if b.is_disposable() {
                b.put_back();
                assert(b == bundle_back(before));
                self.generation = generation;
            }
            self.files = Some(b);
        }
    }

    /// The pack was not seen on disk.
    fn drop_files(&mut self, generation: u32, stable: bool)
        ensures
            *final(self) == dropped(*old(self), generation, stable),
    {
        if stable {
            let mut files: Option<IndexFileBundle> = None;
            std::mem::swap(&mut files, &mut self.files);
            if let Some(mut b) = files {
                let ghost before = b;
                b.trash();
                assert(b == bundle_trashed(before));
                self.files = Some(b);
            }
        } else {
            self.generation = generation;
            self.files = None;
        }
    }
}

/// The new packs are put into their slots.
fn fill_added(slots: &mut Vec<Slot>, added: &Vec<usize>, paths: &Vec<Vec<u8>>, generation: u32)
    requires
        added@.len() == paths@.len(),
        added@.no_duplicates(),
        forall|i: int| 0 <= i < added@.len() ==> (#[trigger] added@[i]) < old(slots)@.len(),
        some_filled(old(slots)@, added@) ==> generation < u32::MAX,
    ensures
        final(slots)@.len() == old(slots)@.len(),
        forall|i: int|
            0 <= i < added@.len() ==> fresh_slot(
                final(slots)@[(#[trigger] added@[i]) as int],
                paths@[i]@,
                new_generation(old(slots)@[added@[i] as int], generation),
            ),
        forall|s: int|
            0 <= s < final(slots)@.len() && !added@.contains(s as usize) ==> #[trigger] final(slots)@[s]
                == old(slots)@[s],
{
    let ghost first = slots@;
    let mut i: usize = 0;
    while i < added.len()
        invariant
            i <= added@.len(),
            added@.len() == paths@.len(),
            added@.no_duplicates(),
            first == old(slots)@,
            slots@.len() == first.len(),
            forall|i: int| 0 <= i < added@.len() ==> (#[trigger] added@[i]) < first.len(),
            some_filled(first, added@) ==> generation < u32::MAX,
            forall|k: int|
                0 <= k < i ==> fresh_slot(
                    slots@[(#[trigger] added@[k]) as int],
                    paths@[k]@,
                    new_generation(first[added@[k] as int], generation),
                ),
            forall|k: int| i <= k < added@.len() ==> slots@[(#[trigger] added@[k]) as int]
                == first[added@[k] as int],
            forall|s: int|
                0 <= s < slots@.len() && !added@.contains(s as usize) ==> #[trigger] slots@[s]
                    == first[s],
        decreases added.len() - i,
    {
        let a = added[i];
        let ghost before = slots@;
        let filled = slots[a].files.is_some();
        proof {
            if filled {
                assert(first[added@[i as int] as int].files is Some);
                assert(some_filled(first, added@));
            }
            assert(added@.contains(a));
        }
        let g = if filled {
            generation + 1
        } else {
            generation
        };
        slots[a].set_to_index(to_vec(paths[i].as_slice()), g);
        proof {
            assert forall|k: int| 0 <= k < i + 1 implies fresh_slot(
                slots@[(#[trigger] added@[k]) as int],
                paths@[k]@,
                new_generation(first[added@[k] as int], generation),
            ) by {
                if k < i {
                    assert(added@[k] != added@[i as int]);
                    assert(slots@[added@[k] as int] == before[added@[k] as int]);
                }
            }
            assert forall|k: int| i + 1 <= k < added@.len() implies slots@[(#[trigger] added@[k]) as int]
                == first[added@[k] as int] by {
                assert(added@[k] != added@[i as int]);
                assert(slots@[added@[k] as int] == before[added@[k] as int]);
            }
        }
        i += 1;
    }
}

/// `after` is what the plan makes of the slots `before`.
pub open spec fn applied(before: Seq<Slot>, p: Plan, generation: u32, stable: bool, after: Seq<Slot>) -> bool {
    &&& after.len() == before.len()
    &&& forall|i: int|
        #![trigger p.added@[i]]
        0 <= i < p.added@.len() && (stable || !p.lost@.contains(p.added@[i])) ==> fresh_slot(
            after[p.added@[i] as int],
            p.added_paths@[i]@,
            new_generation(before[p.added@[i] as int], generation),
        )
    &&& forall|s: int|
        0 <= s < before.len() && !p.added@.contains(s as usize) ==> #[trigger] after[s] == (
        if p.lost@.contains(s as usize) {
            dropped(
                if p.kept@.contains(s as usize) {
                    refreshed(before[s], generation)
                } else {
                    before[s]
                },
                p.generation,
                stable,
            )
        } else if p.kept@.contains(s as usize) {
            refreshed(before[s], generation)
        } else {
            before[s]
        })
    &&& forall|s: int|
        #![trigger after[s]]
        0 <= s < before.len() && p.added@.contains(s as usize) && p.lost@.contains(s as usize)
            && !stable ==> after[s] == (Slot { files: None, generation: p.generation })
}

/// Slots that stay or are lost are slots in use.
proof fn lemma_sorted_out(slots: Seq<Slot>, used: Seq<usize>, paths: Seq<Seq<u8>>, k: int)
    requires
        0 <= k <= paths.len(),
        forall|i: int| 0 <= i < used.len() ==> (#[trigger] used[i]) < slots.len(),
    ensures
        forall|i: int|
            0 <= i < kept_slots(slots, used, paths, k).len() ==> {
                let s = #[trigger] kept_slots(slots, used, paths, k)[i];
                &&& s < slots.len()
                &&& slots[s as int].files matches Some(b) && paths.contains(b.index.path@)
            },
    decreases k,
{
    if k > 0 {
        lemma_sorted_out(slots, used, paths, k - 1);
        lemma_slot_of(slots, used, paths[k - 1], used.len() as int);
        if is_kept(slots, used, paths, k - 1) {
            let s = known(slots, used, paths[k - 1])->0;
            let j = choose|j: int| 0 <= j < used.len() && used[j] == s;
            assert(used[j] < slots.len());
            let v = kept_slots(slots, used, paths, k);
            let w = kept_slots(slots, used, paths, k - 1);
            assert forall|i: int| 0 <= i < v.len() implies ({
                let s = #[trigger] v[i];
                &&& s < slots.len()
                &&& slots[s as int].files matches Some(b) && paths.contains(b.index.path@)
            }) by {
                if i < w.len() {
                    assert(v[i] == w[i]);
                } else {
                    assert(v[i] == s);
                    assert(paths.contains(paths[k - 1]));
                }
            }
        }
    }
}

proof fn lemma_lost(slots: Seq<Slot>, used: Seq<usize>, paths: Seq<Seq<u8>>)
    requires
        forall|i: int| 0 <= i < used.len() ==> (#[trigger] used[i]) < slots.len(),
    ensures
        forall|i: int|
            0 <= i < lost_slots(slots, used, paths).len() ==> {
                let s = #[trigger] lost_slots(slots, used, paths)[i];
                &&& s < slots.len()
                &&& slots[s as int].files matches Some(b) && !paths.contains(b.index.path@)
            },
    decreases used.len(),
{
    if used.len() > 0 {
        let t = used.drop_last();
        assert forall|i: int| 0 <= i < t.len() implies (#[trigger] t[i]) < slots.len() by {
            assert(t[i] == used[i]);
        }
        lemma_lost(slots, t, paths);
        let s = used.last();
        assert(s == used[used.len() - 1]);
        let v = lost_slots(slots, used, paths);
        let w = lost_slots(slots, t, paths);
        assert forall|i: int| 0 <= i < v.len() implies ({
            let s = #[trigger] v[i];
            &&& s < slots.len()
            &&& slots[s as int].files matches Some(b) && !paths.contains(b.index.path@)
        }) by {
            if i < w.len() {
                assert(v[i] == w[i]);
            } else {
                assert(v[i] == s);
            }
        }
    }
}

/// The index of the slots after the plan was carried out.
pub open spec fn index_after(index: SlotMapIndex, p: Plan, dbs: Seq<Seq<u8>>, after: SlotMapIndex) -> bool {
    if p.index_unchanged && paths_view(index.loose_dbs@) == dbs {
        after == index
    } else {
        &&& after.slot_indices@ == p.slot_indices@
        &&& paths_view(after.loose_dbs@) == dbs
        &&& after.generation == p.generation
        &&& after.revision == index.revision + 1
        &&& after.next_index_to_load == (if p.index_unchanged {
            index.next_index_to_load as int
        } else {
            0int
        })
        &&& after.loaded_indices == (if p.index_unchanged {
            index.loaded_indices
        } else {
            p.loaded
        })
    }
}

/// Whether both hold the same paths.
fn same_paths(a: &Vec<Vec<u8>>, b: &Vec<Vec<u8>>) -> (r: bool)
    ensures
        r == (paths_view(a@) == paths_view(b@)),
{
    let ghost x = paths_view(a@);
    let ghost y = paths_view(b@);
    if a.len() != b.len() {
        assert(x.len() != y.len());
        return false;
    }
    let mut i: usize = 0;
    while i < a.len()
        invariant
            i <= a@.len(),
            a@.len() == b@.len(),
            x == paths_view(a@),
            y == paths_view(b@),
            forall|j: int| 0 <= j < i ==> x[j] == y[j],
        decreases a.len() - i,
    {
        assert(x[i as int] == a@[i as int]@ && y[i as int] == b@[i as int]@);
        if !eq_bytes(a[i].as_slice(), b[i].as_slice()) {
            return false;
        }
        i += 1;
    }
    assert(x =~= y);
    true
}

/// Carries out a plan. `db_paths` are the directories of objects. Says whether readers have to look again.
pub fn consolidate_with_disk_state(
    slots: &mut Vec<Slot>,
    index: &mut SlotMapIndex,
    p: Plan,
    db_paths: Vec<Vec<u8>>,
    needs_stable_indices: bool,
) -> (r: bool)
    requires
        0 < old(slots)@.len() <= MAX_SLOTS,
        old(index).wf(old(slots)@.len()),
        exists|paths: Seq<Seq<u8>>|
            is_plan(p, old(slots)@, *old(index), paths, needs_stable_indices),
        p.generation != old(index).generation ==> !p.index_unchanged,
        old(index).revision < u64::MAX,
    ensures
        applied(old(slots)@, p, old(index).generation, needs_stable_indices, final(slots)@),
        index_after(*old(index), p, paths_view(db_paths@), *final(index)),
        final(index).wf(final(slots)@.len()),
        r == !(p.index_unchanged && paths_view(old(index).loose_dbs@) == paths_view(db_paths@)),
{
    let ghost paths = choose|paths: Seq<Seq<u8>>|
        is_plan(p, old(slots)@, *old(index), paths, needs_stable_indices);
    let ghost before = slots@;
    let ghost used = index.slot_indices@;
    proof {
        lemma_sorted_out(before, used, paths, paths.len() as int);
        lemma_lost(before, used, paths);
        assert(largest(used) + 1 >= 0) by {
            lemma_largest(used);
        }
        lemma_placed(
            before,
            p.kept@,
            search_start(used, before.len() as int),
            0,
            new_paths(before, used, paths, paths.len() as int),
            0,
            needs_stable_indices,
        );
        assert(p.added@.len() == p.added_paths@.len());
        lemma_index_wf(before, *old(index), paths, needs_stable_indices, p);
    }
    let generation = index.generation;
    refresh(slots, &p.kept, generation);
    let ghost middle = slots@;
    proof {
        assert forall|i: int| 0 <= i < p.added@.len() implies middle[(#[trigger] p.added@[i]) as int]
            == before[p.added@[i] as int] by {
            assert(!p.kept@.contains(p.added@[i]));
        }
        if some_filled(middle, p.added@) {
            let k = choose|k: int|
                0 <= k < p.added@.len() && middle[(#[trigger] p.added@[k]) as int].files is Some;
            assert(before[p.added@[k] as int].files is Some);
            assert(some_filled(before, p.added@));
        }
    }
    fill_added(slots, &p.added, &p.added_paths, generation);
    let ghost filled = slots@;
    drop_lost(slots, &p.lost, p.generation, needs_stable_indices);
    proof {
        assert forall|i: int|
            #![trigger p.added@[i]]
            0 <= i < p.added@.len() && (needs_stable_indices || !p.lost@.contains(p.added@[i])) implies fresh_slot(
            slots@[p.added@[i] as int],
            p.added_paths@[i]@,
            new_generation(before[p.added@[i] as int], generation),
        ) by {
            assert(middle[p.added@[i] as int] == before[p.added@[i] as int]);
            if !p.lost@.contains(p.added@[i]) {
                assert(slots@[p.added@[i] as int] == filled[p.added@[i] as int]);
            }
        }
        assert(applied(before, p, generation, needs_stable_indices, slots@));
    }
    let same_dbs = same_paths(&index.loose_dbs, &db_paths);
    if p.index_unchanged && same_dbs {
        return false;
    }
    let next_index_to_load = if p.index_unchanged {
        index.next_index_to_load
    } else {
        0
    };
    let loaded_indices = if p.index_unchanged {
        index.loaded_indices
    } else {
        p.loaded
    };
    let revision = index.revision + 1;
    *index = SlotMapIndex {
        slot_indices: p.slot_indices,
        loose_dbs: db_paths,
        generation: p.generation,
        next_index_to_load,
        loaded_indices,
        revision,
    };
    true
}

/// `after` is what is left of the slots `before` where they cannot follow the disk to the end.
pub open spec fn half_applied(before: Seq<Slot>, u: Unfinished, generation: u32, after: Seq<Slot>) -> bool {
    &&& after.len() == before.len()
    &&& forall|i: int|
        #![trigger u.added@[i]]
        0 <= i < u.added@.len() ==> fresh_slot(
            after[u.added@[i] as int],
            u.added_paths@[i]@,
            new_generation(before[u.added@[i] as int], generation),
        )
    &&& forall|s: int|
        0 <= s < before.len() && !u.added@.contains(s as usize) ==> #[trigger] after[s] == (
        if u.kept@.contains(s as usize) {
            refreshed(before[s], generation)
        } else {
            before[s]
        })
}

/// Lets the slots follow the disk as far as they can. Which of them are in use stays as it was.
pub fn give_up(slots: &mut Vec<Slot>, index: &SlotMapIndex, u: Unfinished, needs_stable_indices: bool)
    requires
        0 < old(slots)@.len() <= MAX_SLOTS,
        index.wf(old(slots)@.len()),
        exists|paths: Seq<Seq<u8>>| is_unfinished(u, old(slots)@, *index, paths, needs_stable_indices),
    ensures
        half_applied(old(slots)@, u, index.generation, final(slots)@),
{
    let ghost paths = choose|paths: Seq<Seq<u8>>|
        is_unfinished(u, old(slots)@, *index, paths, needs_stable_indices);
    let ghost before = slots@;
    let ghost used = index.slot_indices@;
    proof {
        lemma_sorted_out(before, used, paths, paths.len() as int);
        lemma_largest(used);
        lemma_placed_until(
            before,
            u.kept@,
            search_start(used, before.len() as int),
            0,
            new_paths(before, used, paths, paths.len() as int),
            0,
            needs_stable_indices,
        );
        assert(u.added_paths@.len() == u.added@.len()) by {
            assert(paths_view(u.added_paths@).len() == u.added@.len());
        }
    }
    refresh(slots, &u.kept, index.generation);
    let ghost middle = slots@;
    proof {
        assert forall|i: int| 0 <= i < u.added@.len() implies middle[(#[trigger] u.added@[i]) as int]
            == before[u.added@[i] as int] by {
            assert(!u.kept@.contains(u.added@[i]));
        }
    }
    fill_added(slots, &u.added, &u.added_paths, index.generation);
    proof {
        assert forall|i: int|
            #![trigger u.added@[i]]
            0 <= i < u.added@.len() implies fresh_slot(
            slots@[u.added@[i] as int],
            u.added_paths@[i]@,
            new_generation(before[u.added@[i] as int], index.generation),
        ) by {
            assert(middle[u.added@[i] as int] == before[u.added@[i] as int]);
        }
    }
}

proof fn lemma_largest(used: Seq<usize>)
    ensures
        largest(used) >= -1,
    decreases used.len(),
{
    if used.len() > 0 {
        lemma_largest(used.drop_last());
    }
}

/// The slots that stay differ, and hold packs at the first paths.
proof fn lemma_kept_differ(slots: Seq<Slot>, used: Seq<usize>, paths: Seq<Seq<u8>>, k: int)
    requires
        0 <= k <= paths.len(),
    ensures
        kept_slots(slots, used, paths, k).no_duplicates(),
        forall|i: int|
            0 <= i < kept_slots(slots, used, paths, k).len() ==> (slots[(
            #[trigger] kept_slots(slots, used, paths, k)[i]) as int].files matches Some(b) && paths.take(k).contains(
                b.index.path@,
            )),
    decreases k,
{
    if k > 0 {
        lemma_kept_differ(slots, used, paths, k - 1);
        lemma_slot_of(slots, used, paths[k - 1], used.len() as int);
        let x = paths[k - 1];
        let earlier = paths.take(k - 1);
        assert(paths.take(k) =~= earlier.push(x));
        assert(earlier.push(x)[k - 1] == x);
        assert forall|y: Seq<u8>| earlier.contains(y) implies #[trigger] earlier.push(x).contains(y) by {
            let j = choose|j: int| 0 <= j < earlier.len() && earlier[j] == y;
            assert(earlier.push(x)[j] == y);
        }
        let v = kept_slots(slots, used, paths, k);
        let w = kept_slots(slots, used, paths, k - 1);
        assert forall|i: int| 0 <= i < v.len() implies (slots[(#[trigger] v[i]) as int].files matches Some(b)
            && paths.take(k).contains(b.index.path@)) by {
            if i < w.len() {
                assert(v[i] == w[i]);
            }
        }
    }
}

/// The slots that are in use by a plan differ and are slots.
proof fn lemma_index_wf(slots: Seq<Slot>, index: SlotMapIndex, paths: Seq<Seq<u8>>, stable: bool, p: Plan)
    requires
        0 < slots.len() <= MAX_SLOTS,
        index.wf(slots.len()),
        is_plan(p, slots, index, paths, stable),
    ensures
        p.slot_indices@.no_duplicates(),
        forall|i: int| 0 <= i < p.slot_indices@.len() ==> (#[trigger] p.slot_indices@[i]) < slots.len(),
{
    let used = index.slot_indices@;
    let n = paths.len() as int;
    let all = p.slot_indices@;
    let m = p.kept@.len();
    lemma_largest(used);
    lemma_sorted_out(slots, used, paths, n);
    lemma_kept_differ(slots, used, paths, n);
    lemma_placed(slots, p.kept@, search_start(used, slots.len() as int), 0, new_paths(slots, used, paths, n), 0, stable);
    assert forall|i: int| 0 <= i < all.len() implies (#[trigger] all[i]) < slots.len() by {
        if i < m {
            assert(all[i] == p.kept@[i]);
        } else {
            assert(all[i] == p.added@[i - m]);
        }
    }
    assert forall|a: int, b: int| 0 <= a < all.len() && 0 <= b < all.len() && a != b implies all[a] != all[b] by {
        if a < m && b < m {
            assert(all[a] == p.kept@[a] && all[b] == p.kept@[b]);
        } else if a >= m && b >= m {
            assert(all[a] == p.added@[a - m] && all[b] == p.added@[b - m]);
        } else if a < m {
            assert(p.kept@.contains(p.kept@[a]) && !p.kept@.contains(p.added@[b - m]));
        } else {
            assert(p.kept@.contains(p.kept@[b]) && !p.kept@.contains(p.added@[a - m]));
        }
    }
}

/// Once a plan was carried out, every pack on disk is in one of the slots in use. Where the slots need not stay as
/// they are, this holds of plans that give no slot of a lost pack to a new one.
pub proof fn law_every_pack_has_a_slot(
    before: Seq<Slot>,
    index: SlotMapIndex,
    paths: Seq<Seq<u8>>,
    stable: bool,
    p: Plan,
    after: Seq<Slot>,
)
    requires
        0 < before.len() <= MAX_SLOTS,
        index.wf(before.len()),
        is_plan(p, before, index, paths, stable),
        applied(before, p, index.generation, stable, after),
        stable || forall|i: int| 0 <= i < p.added@.len() ==> !p.lost@.contains(#[trigger] p.added@[i]),
    ensures
        forall|i: int|
            #![trigger paths[i]]
            0 <= i < paths.len() ==> exists|s: usize| #[trigger]
                p.slot_indices@.contains(s) && holds(after[s as int], paths[i]),
{
    let used = index.slot_indices@;
    let n = paths.len() as int;
    lemma_largest(used);
    lemma_sorted_out(before, used, paths, n);
    lemma_lost(before, used, paths);
    lemma_placed(
        before,
        p.kept@,
        search_start(used, before.len() as int),
        0,
        new_paths(before, used, paths, n),
        0,
        stable,
    );
    assert forall|i: int|
        #![trigger paths[i]]
        0 <= i < paths.len() implies exists|s: usize| #[trigger]
        p.slot_indices@.contains(s) && holds(after[s as int], paths[i]) by {
        if is_kept(before, used, paths, i) {
            let s = known(before, used, paths[i])->0;
            lemma_slot_of(before, used, paths[i], used.len() as int);
            lemma_kept_contains(before, used, paths, n, i);
            assert(p.kept@.contains(s));
            lemma_contains_either(p.kept@, p.added@, s);
            let j = choose|j: int| 0 <= j < used.len() && used[j] == s;
            assert(used[j] < before.len());
            if p.added@.contains(s) {
                let k = choose|k: int| 0 <= k < p.added@.len() && p.added@[k] == s;
                assert(!p.kept@.contains(p.added@[k]));
            }
            if p.lost@.contains(s) {
                let k = choose|k: int| 0 <= k < p.lost@.len() && p.lost@[k] == s;
                assert(paths.contains(paths[i]));
                assert(before[lost_slots(before, used, paths)[k] as int].files is Some);
            }
            assert(after[s as int] == refreshed(before[s as int], index.generation));
            assert(p.slot_indices@.contains(s) && holds(after[s as int], paths[i]));
        } else {
            lemma_new_contains(before, used, paths, n, i);
            let fresh = new_paths(before, used, paths, n);
            let k = choose|k: int| 0 <= k < fresh.len() && fresh[k] == paths[i];
            assert(p.added@.len() == fresh.len());
            assert(paths_view(p.added_paths@)[k] == p.added_paths@[k]@);
            let s = p.added@[k];
            assert(p.added@.contains(s));
            lemma_contains_either(p.kept@, p.added@, s);
            assert(fresh_slot(
                after[s as int],
                p.added_paths@[k]@,
                new_generation(before[s as int], index.generation),
            ));
            assert(p.slot_indices@.contains(s) && holds(after[s as int], paths[i]));
        }
    }
}

proof fn lemma_kept_contains(slots: Seq<Slot>, used: Seq<usize>, paths: Seq<Seq<u8>>, k: int, i: int)
    requires
        0 <= i < k <= paths.len(),
        is_kept(slots, used, paths, i),
    ensures
        kept_slots(slots, used, paths, k).contains(known(slots, used, paths[i])->0),
    decreases k,
{
    let v = kept_slots(slots, used, paths, k);
    let x = known(slots, used, paths[i])->0;
    if i == k - 1 {
        assert(v[v.len() - 1] == x);
    } else {
        lemma_kept_contains(slots, used, paths, k - 1, i);
        let w = kept_slots(slots, used, paths, k - 1);
        let j = choose|j: int| 0 <= j < w.len() && w[j] == x;
        assert(v[j] == x);
    }
}

proof fn lemma_new_contains(slots: Seq<Slot>, used: Seq<usize>, paths: Seq<Seq<u8>>, k: int, i: int)
    requires
        0 <= i < k <= paths.len(),
        !is_kept(slots, used, paths, i),
    ensures
        new_paths(slots, used, paths, k).contains(paths[i]),
    decreases k,
{
    let v = new_paths(slots, used, paths, k);
    if i == k - 1 {
        assert(v[v.len() - 1] == paths[i]);
    } else {
        lemma_new_contains(slots, used, paths, k - 1, i);
        let w = new_paths(slots, used, paths, k - 1);
        let j = choose|j: int| 0 <= j < w.len() && w[j] == paths[i];
        assert(v[j] == paths[i]);
    }
}

/// Whether a file of a directory of packs is the index of one pack, if its data is there too.
pub fn is_pack_index(path: &[u8]) -> (r: bool)
    ensures
        r == (extension_of(path@) == Some(lit("idx")) && name_of(path@) != Some(lit("multi-pack-index"))),
{
    let idx = match extension(path) {
        Some(x) => eq_bytes(x, "idx".as_bytes()),
        None => false,
    };
    let multi = match file_name(path) {
        Some(x) => eq_bytes(x, "multi-pack-index".as_bytes()),
        None => false,
    };
    idx && !multi
}

/// An index on disk.
#[derive(Debug)]
pub struct IndexOnDisk {
    pub path: Vec<u8>,
    pub size: u64,
}

/// What stands for those of `v`.
pub open spec fn on_disk_view(v: Seq<IndexOnDisk>) -> Seq<(Seq<u8>, u64)> {
    Seq::new(v.len(), |i: int| (v[i].path@, v[i].size))
}

/// Those of `s` with the given size.
pub open spec fn of_size(s: Seq<(Seq<u8>, u64)>, size: u64) -> Seq<(Seq<u8>, u64)>
    decreases s.len(),
{
    if s.len() == 0 {
        s
    } else if s.last().1 == size {
        of_size(s.drop_last(), size).push(s.last())
    } else {
        of_size(s.drop_last(), size)
    }
}

/// `b` is `a` with the largest first, those of one size in the order that they had.
pub open spec fn largest_first(a: Seq<(Seq<u8>, u64)>, b: Seq<(Seq<u8>, u64)>) -> bool {
    &&& forall|i: int, j: int| 0 <= i < j < b.len() ==> (#[trigger] b[i]).1 >= (#[trigger] b[j]).1
    &&& forall|size: u64| #[trigger] of_size(a, size) == of_size(b, size)
}

/// `[T]::sort_by_key` with the sizes in reverse puts the largest first and keeps the order of those of one size;
/// what they hold stays.
#[verifier::external_body]
fn sort_descending(v: &mut Vec<IndexOnDisk>)
    ensures
        largest_first(on_disk_view(old(v)@), on_disk_view(final(v)@)),
{
    v.sort_by_key(|e| std::cmp::Reverse(e.size));
}

/// The paths of the indices, the largest first.
pub fn sorted_by_size(v: Vec<IndexOnDisk>) -> (r: Vec<Vec<u8>>)
    ensures
        exists|b: Seq<(Seq<u8>, u64)>|
            #[trigger] largest_first(on_disk_view(v@), b) && paths_view(r@) == Seq::new(
                b.len(),
                |i: int| b[i].0,
            ),
{
    let mut v = v;
    let ghost first = on_disk_view(v@);
    sort_descending(&mut v);
    let ghost b = on_disk_view(v@);
    let ghost want = Seq::new(b.len(), |i: int| b[i].0);
    let mut out: Vec<Vec<u8>> = Vec::new();
    let mut i: usize = 0;
    while i < v.len()
        invariant
            i <= v@.len(),
            b == on_disk_view(v@),
            want == Seq::new(b.len(), |i: int| b[i].0),
            paths_view(out@) == want.take(i as int),
        decreases v.len() - i,
    {
        let ghost before = paths_view(out@);
        out.push(to_vec(v[i].path.as_slice()));
        assert(paths_view(out@) =~= before.push(want[i as int]));
        assert(paths_view(out@) =~= want.take(i + 1));
        i += 1;
    }
    assert(want.take(want.len() as int) =~= want);
    assert(largest_first(first, b));
    out
}

/// The first slot in use from the `k`-th on whose index can be read: it is as old as the index of slots, and holds
/// a pack.
pub open spec fn next_loadable(slots: Seq<Slot>, index: SlotMapIndex, k: int) -> int
    decreases index.slot_indices@.len() - k,
{
    let used = index.slot_indices@;
    if k >= used.len() || k < 0 {
        used.len() as int
    } else if slots[used[k] as int].generation <= index.generation && slots[used[k] as int].files is Some {
        k
    } else {
        next_loadable(slots, index, k + 1)
    }
}

/// The slot whose index is to be read next.
pub fn load_next_index(slots: &Vec<Slot>, index: &mut SlotMapIndex) -> (r: Option<usize>)
    requires
        old(index).wf(slots@.len()),
    ensures
        final(index).wf(slots@.len()),
        final(index).slot_indices == old(index).slot_indices,
        final(index).loose_dbs == old(index).loose_dbs,
        final(index).generation == old(index).generation,
        final(index).loaded_indices == old(index).loaded_indices,
        final(index).revision == old(index).revision,
        ({
            let k = next_loadable(slots@, *old(index), old(index).next_index_to_load as int);
            if k < old(index).slot_indices@.len() {
                r == Some(old(index).slot_indices@[k]) && final(index).next_index_to_load == k + 1
            } else {
                r is None && final(index).next_index_to_load == old(index).slot_indices@.len()
            }
        }),
{
    let n = index.slot_indices.len();
    let mut k = index.next_index_to_load;
    while k < n
        invariant
            k <= n,
            n == index.slot_indices@.len(),
            *index == *old(index),
            index.wf(slots@.len()),
            next_loadable(slots@, *old(index), old(index).next_index_to_load as int) == next_loadable(
                slots@,
                *old(index),
                k as int,
            ),
        decreases n - k,
    {
        let s = index.slot_indices[k];
        assert(s == index.slot_indices@[k as int]);
        if slots[s].generation <= index.generation && slots[s].files.is_some() {
            index.next_index_to_load = k + 1;
            return Some(s);
        }
        k += 1;
    }
    index.next_index_to_load = n;
    None
}

/// Takes note of what came of reading the index of a slot. Says whether it was read.
pub fn note_loaded(slots: &mut Vec<Slot>, index: &mut SlotMapIndex, slot: usize, loading: Loading<
    crate::git::pack::index::IndexFile,
>) -> (r: bool)
    requires
        slot < old(slots)@.len(),
        old(slots)@[slot as int].files is Some,
        old(index).loaded_indices < usize::MAX,
    ensures
        final(index).loaded_indices == old(index).loaded_indices + 1,
        final(index).slot_indices == old(index).slot_indices,
        final(index).generation == old(index).generation,
        final(index).revision == old(index).revision,
        final(index).next_index_to_load == old(index).next_index_to_load,
        final(index).loose_dbs == old(index).loose_dbs,
        final(slots)@.len() == old(slots)@.len(),
        forall|s: int| 0 <= s < final(slots)@.len() && s != slot ==> #[trigger] final(slots)@[s]
            == old(slots)@[s],
        ({
            let was = old(slots)@[slot as int];
            let b = was.files->0;
            let state = if b.index.state.contents() is Some {
                b.index.state
            } else {
                match loading {
                    Loading::Done(v) => OnDiskFileState::Loaded(v),
                    _ => OnDiskFileState::Missing,
                }
            };
            &&& final(slots)@[slot as int] == (Slot {
                files: Some(IndexFileBundle { index: OnDiskFile { path: b.index.path, state }, data: b.data }),
                generation: was.generation,
            })
            &&& r == (state.contents() is Some)
        }),
{
    index.loaded_indices = index.loaded_indices + 1;
    let mut files: Option<IndexFileBundle> = None;
    std::mem::swap(&mut files, &mut slots[slot].files);
    match files {
        None => false,
        Some(mut b) => {
            let r = b.index.load_strict(loading).is_ok();
            slots[slot].files = Some(b);
            r
        },
    }
}

/// What is to be done to get the data of a pack.
#[derive(Debug)]
pub enum PackLoad {
    /// The slots changed: they are to be looked at again.
    Stale,
    Ready(std::sync::Arc<crate::git::pack::data::DataFile>),
    /// The file is to be read.
    Read,
}

/// What is to be done to get the data of the pack `id`, for a reader that saw `marker`.
pub fn load_pack(slots: &Vec<Slot>, index: &SlotMapIndex, id: PackId, marker: SlotIndexMarker) -> (r: PackLoad)
    requires
        id.index < slots@.len(),
        index.generation == marker.generation && slots@[id.index as int].generation <= marker.generation
            && id.multipack_index is None ==> slots@[id.index as int].files is Some,
    ensures
        r is Stale <==> index.generation != marker.generation || slots@[id.index as int].generation
            > marker.generation || id.multipack_index is Some,
        r !is Stale ==> match (slots@[id.index as int].files->0).data.state.contents() {
            Some(d) => r == PackLoad::Ready(d),
            None => r is Read,
        },
{
    if index.generation != marker.generation {
        return PackLoad::Stale;
    }
    if slots[id.index].generation > marker.generation || id.multipack_index.is_some() {
        return PackLoad::Stale;
    }
    match &slots[id.index].files {
        None => PackLoad::Stale,
        Some(b) => match b.data.loaded() {
            Some(d) => PackLoad::Ready(d),
            None => PackLoad::Read,
        },
    }
}

/// Whether a reader that saw `marker` has to look at the slots again before anything is read from disk.
pub fn needs_new_snapshot(index: &SlotMapIndex, marker: SlotIndexMarker) -> (r: bool)
    ensures
        r == (marker.generation != index.generation || marker.revision != index.revision
            || marker.loaded_indices != index.loaded_indices),
{
    marker.generation != index.generation || marker.revision != index.revision || marker.loaded_indices
        != index.loaded_indices
}

/// What happened while a reader asks for packs that it has not seen.
#[derive(Debug, Clone, Copy, PartialEq, Eq, Structural)]
pub enum RefreshEvent {
    /// Nothing yet. Whether the directories were ever read, and whether the slots changed since
    /// the reader saw them.
    Begin { initialized: bool, changed: bool },
    /// The next index was read, or there was none.
    NextLoaded(bool),
    /// The directories were read, and whether that changed the slots. Whether an index is to be
    /// read then.
    Consolidated { changed: bool, load_new_index: bool },
}

/// What is to be done for a reader that asks for packs that it has not seen.
#[derive(Debug, Clone, Copy, PartialEq, Eq, Structural)]
pub enum RefreshAction {
    /// Read the next index.
    LoadNext,
    /// Read the directories.
    Consolidate { load_new_index: bool },
    /// Read the next index, if there is one, and show the slots.
    LoadAndShow,
    /// Show the slots.
    Show,
    /// There is nothing new.
    Nothing,
}

/// The next step for a reader that asks for packs that it has not seen.
pub fn load_one_index(event: RefreshEvent) -> (r: RefreshAction)
    ensures
        match event {
            RefreshEvent::Begin { initialized: false, .. } => r == (RefreshAction::Consolidate {
                load_new_index: false,
            }),
            RefreshEvent::Begin { initialized: true, changed: true } => r is Show,
            RefreshEvent::Begin { initialized: true, changed: false } => r is LoadNext,
            RefreshEvent::NextLoaded(true) => r is Show,
            RefreshEvent::NextLoaded(false) => r == (RefreshAction::Consolidate { load_new_index: true }),
            RefreshEvent::Consolidated { changed: false, .. } => r is Nothing,
            RefreshEvent::Consolidated { changed: true, load_new_index } => if load_new_index {
                r is LoadAndShow
            } else {
                r is Show
            },
        },
{
    match event {
        RefreshEvent::Begin { initialized, changed } => {
            if !initialized {
                RefreshAction::Consolidate { load_new_index: false }
            } else if changed {
                RefreshAction::Show
            } else {
                RefreshAction::LoadNext
            }
        },
        RefreshEvent::NextLoaded(loaded) => {
            if loaded {
                RefreshAction::Show
            } else {
                RefreshAction::Consolidate { load_new_index: true }
            }
        },
        RefreshEvent::Consolidated { changed, load_new_index } => {
            if !changed {
                RefreshAction::Nothing
            } else if load_new_index {
                RefreshAction::LoadAndShow
            } else {
                RefreshAction::Show
            }
        },
    }
}

/// How many readers there are, by what they ask of packs that are gone.
#[derive(Debug)]
pub struct Handles {
    pub stable: usize,
    pub unstable: usize,
}

/// What a reader asks of packs that are gone.
#[derive(Debug, Clone, Copy, PartialEq, Eq, Structural)]
pub enum HandleMode {
    DeletedPacksAreInaccessible,
    KeepDeletedPacksAvailable,
}

impl Handles {
    /// One more reader.
    pub fn register_handle(&mut self) -> (r: HandleMode)
        requires
            old(self).unstable < usize::MAX,
        ensures
            r is DeletedPacksAreInaccessible,
            final(self).unstable == old(self).unstable + 1,
            final(self).stable == old(self).stable,
    {
        self.unstable = self.unstable + 1;
        HandleMode::DeletedPacksAreInaccessible
    }

    /// One reader less.
    pub fn remove_handle(&mut self, mode: HandleMode)
        requires
            mode is KeepDeletedPacksAvailable ==> old(self).stable > 0,
            mode is DeletedPacksAreInaccessible ==> old(self).unstable > 0,
        ensures
            final(self).stable == (if mode is KeepDeletedPacksAvailable {
                old(self).stable - 1
            } else {
                old(self).stable as int
            }),
            final(self).unstable == (if mode is KeepDeletedPacksAvailable {
                old(self).unstable as int
            } else {
                old(self).unstable - 1
            }),
    {
        match mode {
            HandleMode::KeepDeletedPacksAvailable => {
                self.stable = self.stable - 1;
            },
            HandleMode::DeletedPacksAreInaccessible => {
                self.unstable = self.unstable - 1;
            },
        }
    }

    /// A reader asks that packs that are gone stay available.
    pub fn upgrade_handle(&mut self, mode: HandleMode) -> (r: HandleMode)
        requires
            mode is DeletedPacksAreInaccessible ==> old(self).unstable > 0 && old(self).stable < usize::MAX,
        ensures
            r is KeepDeletedPacksAvailable,
            final(self).stable + final(self).unstable == old(self).stable + old(self).unstable,
            mode is DeletedPacksAreInaccessible ==> final(self).stable == old(self).stable + 1,
            mode is KeepDeletedPacksAvailable ==> final(self).stable == old(self).stable,
    {
        match mode {
            HandleMode::DeletedPacksAreInaccessible => {
                self.stable = self.stable + 1;
                self.unstable = self.unstable - 1;
            },
            HandleMode::KeepDeletedPacksAvailable => {},
        }
        HandleMode::KeepDeletedPacksAvailable
    }

    /// Whether packs that are gone stay available.
    pub fn maintain_stable_indices(&self) -> (r: bool)
        ensures
            r == (self.stable > 0),
    {
        self.stable > 0
    }
}

/// The paths that stay, in the order of their slots.
proof fn lemma_kept_paths(slots: Seq<Slot>, used: Seq<usize>, paths: Seq<Seq<u8>>, k: int)
    requires
        0 <= k <= paths.len(),
        paths.no_duplicates(),
        forall|i: int| 0 <= i < used.len() ==> (#[trigger] used[i]) < slots.len(),
    ensures
        ({
            let kept = kept_slots(slots, used, paths, k);
            let old_ones = kept_paths(slots, used, paths, k);
            let new_ones = new_paths(slots, used, paths, k);
            &&& kept.len() == old_ones.len()
            &&& forall|j: int| 0 <= j < kept.len() ==> holds(slots[(#[trigger] kept[j]) as int], old_ones[j])
            &&& forall|j: int|
                0 <= j < old_ones.len() ==> paths.take(k).contains(#[trigger] old_ones[j]) && known(
                    slots,
                    used,
                    old_ones[j],
                ) is Some
            &&& forall|j: int|
                0 <= j < new_ones.len() ==> paths.take(k).contains(#[trigger] new_ones[j]) && known(
                    slots,
                    used,
                    new_ones[j],
                ) is None
            &&& old_ones.no_duplicates()
            &&& new_ones.no_duplicates()
            &&& forall|i: int|
                0 <= i < k ==> old_ones.contains(#[trigger] paths[i]) || new_ones.contains(paths[i])
        }),
    decreases k,
{
    if k > 0 {
        lemma_kept_paths(slots, used, paths, k - 1);
        lemma_slot_of(slots, used, paths[k - 1], used.len() as int);
        let x = paths[k - 1];
        let earlier = paths.take(k - 1);
        let old_before = kept_paths(slots, used, paths, k - 1);
        let new_before = new_paths(slots, used, paths, k - 1);
        let old_ones = kept_paths(slots, used, paths, k);
        let new_ones = new_paths(slots, used, paths, k);
        assert(paths.take(k) =~= earlier.push(x));
        assert(!earlier.contains(x)) by {
            if earlier.contains(x) {
                let j = choose|j: int| 0 <= j < earlier.len() && earlier[j] == x;
                assert(paths[j] == paths[k - 1]);
            }
        }
        assert(earlier.push(x)[k - 1] == x);
        assert forall|y: Seq<u8>| earlier.contains(y) implies #[trigger] earlier.push(x).contains(y) by {
            let j = choose|j: int| 0 <= j < earlier.len() && earlier[j] == y;
            assert(earlier.push(x)[j] == y);
        }
        assert forall|j: int| 0 <= j < old_ones.len() implies paths.take(k).contains(#[trigger] old_ones[j]) && known(
            slots,
            used,
            old_ones[j],
        ) is Some by {
            if j < old_before.len() {
                assert(old_ones[j] == old_before[j]);
            }
        }
        assert forall|j: int| 0 <= j < new_ones.len() implies paths.take(k).contains(#[trigger] new_ones[j]) && known(
            slots,
            used,
            new_ones[j],
        ) is None by {
            if j < new_before.len() {
                assert(new_ones[j] == new_before[j]);
            }
        }
        assert forall|i: int| 0 <= i < k implies old_ones.contains(#[trigger] paths[i]) || new_ones.contains(
            paths[i],
        ) by {
            if i < k - 1 {
                if old_before.contains(paths[i]) {
                    let j = choose|j: int| 0 <= j < old_before.len() && old_before[j] == paths[i];
                    assert(old_ones[j] == paths[i]);
                } else {
                    let j = choose|j: int| 0 <= j < new_before.len() && new_before[j] == paths[i];
                    assert(new_ones[j] == paths[i]);
                }
            } else if is_kept(slots, used, paths, k - 1) {
                assert(old_ones[old_ones.len() - 1] == x);
            } else {
                assert(new_ones[new_ones.len() - 1] == x);
            }
        }
    }
}

/// The paths that stay, and the new ones after them, are all paths.
proof fn lemma_in_slot_order(slots: Seq<Slot>, used: Seq<usize>, paths: Seq<Seq<u8>>)
    requires
        paths.no_duplicates(),
        forall|i: int| 0 <= i < used.len() ==> (#[trigger] used[i]) < slots.len(),
    ensures
        in_slot_order(slots, used, paths).no_duplicates(),
        forall|i: int| 0 <= i < paths.len() ==> in_slot_order(slots, used, paths).contains(#[trigger] paths[i]),
        forall|j: int|
            0 <= j < in_slot_order(slots, used, paths).len() ==> paths.contains(
                #[trigger] in_slot_order(slots, used, paths)[j],
            ),
{
    let n = paths.len() as int;
    let old_ones = kept_paths(slots, used, paths, n);
    let new_ones = new_paths(slots, used, paths, n);
    let all = in_slot_order(slots, used, paths);
    lemma_kept_paths(slots, used, paths, n);
    assert(paths.take(n) =~= paths);
    assert forall|i: int| 0 <= i < n implies all.contains(#[trigger] paths[i]) by {
        if old_ones.contains(paths[i]) {
            let j = choose|j: int| 0 <= j < old_ones.len() && old_ones[j] == paths[i];
            assert(all[j] == paths[i]);
        } else {
            let j = choose|j: int| 0 <= j < new_ones.len() && new_ones[j] == paths[i];
            assert(all[old_ones.len() + j] == paths[i]);
        }
    }
    assert forall|j: int| 0 <= j < all.len() implies paths.contains(#[trigger] all[j]) by {
        if j < old_ones.len() {
            assert(all[j] == old_ones[j]);
        } else {
            assert(all[j] == new_ones[j - old_ones.len()]);
        }
    }
    assert forall|a: int, b: int| 0 <= a < all.len() && 0 <= b < all.len() && a != b implies all[a] != all[b] by {
        let m = old_ones.len();
        if a < m && b < m {
            assert(all[a] == old_ones[a] && all[b] == old_ones[b]);
        } else if a >= m && b >= m {
            assert(all[a] == new_ones[a - m] && all[b] == new_ones[b - m]);
        } else if a < m {
            assert(known(slots, used, old_ones[a]) is Some && known(slots, used, new_ones[b - m]) is None);
        } else {
            assert(known(slots, used, new_ones[a - m]) is None && known(slots, used, old_ones[b]) is Some);
        }
    }
}

/// The slots in use hold the packs at the paths, in their order.
spec fn in_step(slots: Seq<Slot>, used: Seq<usize>, paths: Seq<Seq<u8>>) -> bool {
    &&& used.len() == paths.len()
    &&& forall|i: int| 0 <= i < used.len() ==> holds(slots[(#[trigger] used[i]) as int], paths[i])
}

proof fn lemma_slot_in_step(slots: Seq<Slot>, used: Seq<usize>, paths: Seq<Seq<u8>>, i: int, k: int)
    requires
        in_step(slots, used, paths),
        paths.no_duplicates(),
        0 <= i < k <= paths.len(),
    ensures
        slot_of(slots, used, paths[i], k) == Some(used[i]),
    decreases k,
{
    if i < k - 1 {
        assert(holds(slots[used[k - 1] as int], paths[k - 1]));
        assert(paths[i] != paths[k - 1]);
        lemma_slot_in_step(slots, used, paths, i, k - 1);
    } else {
        assert(holds(slots[used[i] as int], paths[i]));
    }
}

/// Where the slots in use hold the packs at the paths, in any order, all of them stay.
proof fn lemma_all_kept(slots: Seq<Slot>, used: Seq<usize>, order: Seq<Seq<u8>>, paths: Seq<Seq<u8>>, k: int)
    requires
        in_step(slots, used, order),
        order.no_duplicates(),
        paths.no_duplicates(),
        forall|i: int| 0 <= i < paths.len() ==> order.contains(#[trigger] paths[i]),
        0 <= k <= paths.len(),
    ensures
        kept_paths(slots, used, paths, k) == paths.take(k),
        new_paths(slots, used, paths, k) == Seq::<Seq<u8>>::empty(),
        kept_slots(slots, used, paths, k).len() == k,
        forall|i: int|
            0 <= i < k ==> used.contains(#[trigger] kept_slots(slots, used, paths, k)[i]) && holds(
                slots[kept_slots(slots, used, paths, k)[i] as int],
                paths[i],
            ),
        order == paths ==> kept_slots(slots, used, paths, k) == used.take(k),
    decreases k,
{
    if k > 0 {
        lemma_all_kept(slots, used, order, paths, k - 1);
        let x = paths[k - 1];
        assert(order.contains(x));
        let j = choose|j: int| 0 <= j < order.len() && order[j] == x;
        lemma_slot_in_step(slots, used, order, j, order.len() as int);
        let before = paths.take(k - 1);
        if before.contains(x) {
            let i = choose|i: int| 0 <= i < before.len() && before[i] == x;
            assert(paths[i] == paths[k - 1]);
        }
        assert(used.contains(used[j]));
        assert(paths.take(k) =~= before.push(x));
        let v = kept_slots(slots, used, paths, k);
        let w = kept_slots(slots, used, paths, k - 1);
        assert(v == w.push(used[j]));
        assert forall|i: int| 0 <= i < k implies used.contains(#[trigger] v[i]) && holds(
            slots[v[i] as int],
            paths[i],
        ) by {
            if i < k - 1 {
                assert(v[i] == w[i]);
            }
        }
        if order == paths {
            assert(j == k - 1) by {
                assert(order[j] == order[k - 1]);
            }
            assert(used.take(k) =~= used.take(k - 1).push(used[k - 1]));
        }
    } else {
        assert(used.take(0) =~= Seq::empty());
        assert(paths.take(0) =~= Seq::empty());
    }
}

proof fn lemma_none_lost(
    slots: Seq<Slot>,
    used: Seq<usize>,
    all: Seq<usize>,
    order: Seq<Seq<u8>>,
    paths: Seq<Seq<u8>>,
)
    requires
        in_step(slots, all, order),
        forall|j: int| 0 <= j < order.len() ==> paths.contains(#[trigger] order[j]),
        used.len() <= all.len(),
        used == all.take(used.len() as int),
    ensures
        lost_slots(slots, used, paths) == Seq::<usize>::empty(),
    decreases used.len(),
{
    if used.len() > 0 {
        let n = used.len() - 1;
        assert(used.drop_last() =~= all.take(n));
        lemma_none_lost(slots, used.drop_last(), all, order, paths);
        assert(used.last() == all[n]);
        assert(holds(slots[all[n] as int], order[n]));
        assert(paths.contains(order[n]));
    }
}

/// Once a plan was carried out, the slots in use hold the packs that stayed and the new ones after them, and none of
/// these packs is gone.
proof fn lemma_in_step_after(
    before: Seq<Slot>,
    index: SlotMapIndex,
    paths: Seq<Seq<u8>>,
    stable: bool,
    p: Plan,
    after: Seq<Slot>,
)
    requires
        0 < before.len() <= MAX_SLOTS,
        index.wf(before.len()),
        paths.no_duplicates(),
        is_plan(p, before, index, paths, stable),
        applied(before, p, index.generation, stable, after),
        stable || forall|i: int| 0 <= i < p.added@.len() ==> !p.lost@.contains(#[trigger] p.added@[i]),
    ensures
        in_step(after, p.slot_indices@, in_slot_order(before, index.slot_indices@, paths)),
        forall|i: int|
            0 <= i < p.slot_indices@.len() ==> (#[trigger] p.slot_indices@[i]) < before.len() && (
            after[p.slot_indices@[i] as int].files matches Some(b) && !b.disposable()),
{
    let used = index.slot_indices@;
    let n = paths.len() as int;
    let order = in_slot_order(before, used, paths);
    let all = p.slot_indices@;
    let m = p.kept@.len();
    lemma_largest(used);
    lemma_sorted_out(before, used, paths, n);
    lemma_lost(before, used, paths);
    lemma_kept_paths(before, used, paths, n);
    lemma_placed(
        before,
        p.kept@,
        search_start(used, before.len() as int),
        0,
        new_paths(before, used, paths, n),
        0,
        stable,
    );
    assert(p.added@.len() == new_paths(before, used, paths, n).len());
    assert forall|i: int| 0 <= i < all.len() implies holds(after[(#[trigger] all[i]) as int], order[i]) && all[i]
        < before.len() && (after[all[i] as int].files matches Some(b) && !b.disposable()) by {
        if i < m {
            let s = p.kept@[i];
            assert(all[i] == s);
            assert(holds(before[s as int], order[i]));
            assert(p.kept@.contains(s));
            if p.added@.contains(s) {
                let k = choose|k: int| 0 <= k < p.added@.len() && p.added@[k] == s;
                assert(!p.kept@.contains(p.added@[k]));
            }
            if p.lost@.contains(s) {
                let k = choose|k: int| 0 <= k < p.lost@.len() && p.lost@[k] == s;
                assert(before[lost_slots(before, used, paths)[k] as int].files is Some);
            }
            assert(after[s as int] == refreshed(before[s as int], index.generation));
        } else {
            let s = p.added@[i - m];
            assert(all[i] == s);
            assert(fresh_slot(
                after[p.added@[i - m] as int],
                p.added_paths@[i - m]@,
                new_generation(before[s as int], index.generation),
            ));
            assert(paths_view(p.added_paths@)[i - m] == p.added_paths@[i - m]@);
        }
    }
}

/// Once the slots followed the disk, they can follow it again as long as the disk stays the same. Where the slots need
/// not stay as they are, this holds of plans that give no slot of a lost pack to a new one.
pub proof fn law_unchanged_disk_has_a_plan(
    before: Seq<Slot>,
    index: SlotMapIndex,
    paths: Seq<Seq<u8>>,
    dbs: Seq<Seq<u8>>,
    stable: bool,
    p: Plan,
    first: Seq<Slot>,
    first_index: SlotMapIndex,
    still_stable: bool,
)
    requires
        0 < before.len() <= MAX_SLOTS,
        index.wf(before.len()),
        paths.no_duplicates(),
        is_plan(p, before, index, paths, stable),
        applied(before, p, index.generation, stable, first),
        index_after(index, p, dbs, first_index),
        stable || forall|i: int| 0 <= i < p.added@.len() ==> !p.lost@.contains(#[trigger] p.added@[i]),
    ensures
        first_index.wf(first.len()),
        !no_plan(first, first_index, paths, still_stable),
{
    let used = first_index.slot_indices@;
    lemma_index_wf(before, index, paths, stable, p);
    lemma_in_step_after(before, index, paths, stable, p, first);
    lemma_in_slot_order(before, index.slot_indices@, paths);
    lemma_all_kept(first, used, in_slot_order(before, index.slot_indices@, paths), paths, paths.len() as int);
}

/// Once the slots followed the disk, following it again changes none of them, as long as the disk stays the same and
/// nothing was read. Which of them are in use stays the same too, in the same order, if and only if the new packs came
/// after those that stayed; otherwise the slots are put in the order of the disk, and stay in it from then on. Where
/// the slots need not stay as they are, this holds of plans that give no slot of a lost pack to a new one.
pub proof fn law_unchanged_disk_changes_nothing(
    before: Seq<Slot>,
    index: SlotMapIndex,
    paths: Seq<Seq<u8>>,
    dbs: Seq<Seq<u8>>,
    stable: bool,
    p: Plan,
    first: Seq<Slot>,
    first_index: SlotMapIndex,
    still_stable: bool,
    q: Plan,
    second: Seq<Slot>,
    second_index: SlotMapIndex,
)
    requires
        0 < before.len() <= MAX_SLOTS,
        index.wf(before.len()),
        paths.no_duplicates(),
        is_plan(p, before, index, paths, stable),
        applied(before, p, index.generation, stable, first),
        index_after(index, p, dbs, first_index),
        stable || forall|i: int| 0 <= i < p.added@.len() ==> !p.lost@.contains(#[trigger] p.added@[i]),
        is_plan(q, first, first_index, paths, still_stable),
        applied(first, q, first_index.generation, still_stable, second),
        index_after(first_index, q, dbs, second_index),
    ensures
        second == first,
        q.generation == first_index.generation,
        q.index_unchanged <==> in_slot_order(before, index.slot_indices@, paths) == paths,
        q.index_unchanged ==> second_index == first_index,
        in_slot_order(first, first_index.slot_indices@, paths) == paths,
{
    let n = paths.len() as int;
    let used = first_index.slot_indices@;
    let order = in_slot_order(before, index.slot_indices@, paths);
    lemma_in_step_after(before, index, paths, stable, p, first);
    lemma_in_slot_order(before, index.slot_indices@, paths);
    lemma_all_kept(first, used, order, paths, n);
    assert(used.take(used.len() as int) =~= used);
    assert(paths.take(n) =~= paths);
    lemma_none_lost(first, used, used, order, paths);
    assert(q.added@ =~= seq![]);
    assert(q.kept@ + q.added@ =~= q.kept@);
    assert(kept_paths(first, used, paths, n) + new_paths(first, used, paths, n) =~= paths);
    if q.index_unchanged {
        assert forall|i: int| 0 <= i < n implies order[i] == #[trigger] paths[i] by {
            assert(q.kept@[i] == used[i]);
            assert(holds(first[used[i] as int], order[i]));
        }
        assert(order =~= paths);
    }
    assert forall|s: int| 0 <= s < first.len() implies second[s] == first[s] by {
        if q.kept@.contains(s as usize) {
            let i = choose|i: int| 0 <= i < q.kept@.len() && q.kept@[i] == s as usize;
            assert(used.contains(q.kept@[i]));
            let j = choose|j: int| 0 <= j < used.len() && used[j] == s as usize;
            assert(first[p.slot_indices@[j] as int].files is Some);
        }
    }
    assert(second =~= first);
}

/// Where no slot is in use, all packs are new: none of them comes before one that stays.
pub proof fn law_first_packs_are_in_order(slots: Seq<Slot>, used: Seq<usize>, paths: Seq<Seq<u8>>)
    requires
        used.len() == 0,
    ensures
        in_slot_order(slots, used, paths) == paths,
{
    lemma_all_new(slots, used, paths, paths.len() as int);
    assert(paths.take(paths.len() as int) =~= paths);
    assert(in_slot_order(slots, used, paths) =~= paths);
}

proof fn lemma_all_new(slots: Seq<Slot>, used: Seq<usize>, paths: Seq<Seq<u8>>, k: int)
    requires
        used.len() == 0,
        0 <= k <= paths.len(),
    ensures
        kept_paths(slots, used, paths, k) == Seq::<Seq<u8>>::empty(),
        new_paths(slots, used, paths, k) == paths.take(k),
    decreases k,
{
    if k > 0 {
        lemma_all_new(slots, used, paths, k - 1);
        assert(paths.take(k) =~= paths.take(k - 1).push(paths[k - 1]));
    } else {
        assert(paths.take(0) =~= Seq::empty());
    }
}

} // verus!
