use helix_ext::git::error::GitError;
use helix_ext::git::object::ObjectKind;
use helix_ext::git::odb::find::{FindAction, FindEvent, FindStep, Finding};
use helix_ext::git::odb::slots::{IndexFileBundle, Loading, OnDiskFile, OnDiskFileState, Slot};
use helix_ext::git::odb::store::{
    consolidate_with_disk_state, give_up, is_pack_index, load_next_index, load_one_index, load_pack, needs_new_snapshot, plan_consolidation,
    slot_count, sorted_by_size, HandleMode, Handles, IndexOnDisk, PackId, PackLoad, RefreshAction,
    RefreshEvent, SlotMapIndex,
};
use helix_ext::git::oid::ObjectId;
use std::sync::Arc;

fn slots(n: usize) -> Vec<Slot> {
    (0..n).map(|_| Slot::new()).collect()
}

fn paths(names: &[&str]) -> Vec<Vec<u8>> {
    names.iter().map(|n| format!("/o/pack/{}.idx", n).into_bytes()).collect()
}

#[test]
fn number_of_slots() {
    assert_eq!(slot_count(3, 32).unwrap(), 32);
    assert!(slot_count(40, 32).is_ok());
    assert!(slot_count(usize::MAX, 32).is_err());
}

#[test]
fn ids_of_packs() {
    let a = PackId { index: 3, multipack_index: None };
    assert_eq!(a.to_intrinsic_pack_id(), 3);
    let b = PackId { index: 3, multipack_index: Some(5) };
    assert_ne!(a.to_intrinsic_pack_id(), b.to_intrinsic_pack_id());
    let c = PackId { index: 4, multipack_index: Some(5) };
    assert_ne!(b.to_intrinsic_pack_id(), c.to_intrinsic_pack_id());
}

#[test]
fn files_that_come_and_go() {
    let mut f: OnDiskFile<u8> = OnDiskFile::new(b"/x".to_vec());
    assert!(f.wants_loading() && !f.is_loaded());
    assert_eq!(*f.load_with_recovery(Loading::Done(Arc::new(7))).unwrap().unwrap(), 7);
    assert!(f.is_loaded() && !f.is_disposable());
    f.trash();
    assert!(matches!(f.state, OnDiskFileState::Garbage(_)));
    assert_eq!(*f.loaded().unwrap(), 7);
    f.put_back();
    assert!(matches!(f.state, OnDiskFileState::Loaded(_)));
    let mut g: OnDiskFile<u8> = OnDiskFile::new(b"/y".to_vec());
    assert!(matches!(g.load_with_recovery(Loading::NotFound), Ok(None)));
    assert!(g.is_disposable());
    let mut h: OnDiskFile<u8> = OnDiskFile::new(b"/z".to_vec());
    assert!(h.load_with_recovery(Loading::Failed).is_err());
    assert!(matches!(h.load_strict(Loading::Failed), Err(GitError::Gen | GitError::Io)));
    let b = IndexFileBundle::new_single(b"/o/p.idx".to_vec());
    assert_eq!(b.index_path(), b"/o/p.idx");
    assert_eq!(b.data.path, b"/o/p.pack".to_vec());
    assert!(!b.index_is_loaded());
}

#[test]
fn every_pack_gets_a_slot() {
    let mut s = slots(4);
    let mut ix = SlotMapIndex::new();
    assert!(!ix.is_initialized());
    let plan = plan_consolidation(&s, &ix, &paths(&["a", "b"]), false).unwrap();
    assert_eq!(plan.added.len(), 2);
    assert!(consolidate_with_disk_state(&mut s, &mut ix, plan, vec![b"/o".to_vec()], false));
    assert!(ix.is_initialized());
    assert_eq!(ix.slot_indices.len(), 2);
    for (slot, path) in ix.slot_indices.iter().zip(paths(&["a", "b"])) {
        assert_eq!(s[*slot].path(), Some(path));
    }
    let marker = ix.marker();
    assert!(!needs_new_snapshot(&ix, marker));
    let first = load_next_index(&s, &mut ix).unwrap();
    assert_eq!(s[first].path(), Some(paths(&["a"]).remove(0)));
    let plan = plan_consolidation(&s, &ix, &paths(&["b", "c"]), false).unwrap();
    assert_eq!(plan.lost.len(), 1);
    assert_eq!(plan.added_paths, paths(&["c"]));
    assert!(consolidate_with_disk_state(&mut s, &mut ix, plan, vec![b"/o".to_vec()], false));
    let mut found: Vec<Vec<u8>> = ix.slot_indices.iter().map(|i| s[*i].path().unwrap()).collect();
    found.sort();
    assert_eq!(found, paths(&["b", "c"]));
    assert!(needs_new_snapshot(&ix, marker));
    let many = paths(&["1", "2", "3", "4", "5", "6"]);
    assert_eq!(plan_consolidation(&s, &ix, &many, false).unwrap_err().added.len(), 4);
}

#[test]
fn too_few_slots_are_filled_all_the_same() {
    let mut s = slots(2);
    let ix = SlotMapIndex::new();
    let unfinished = plan_consolidation(&s, &ix, &paths(&["a", "b", "c"]), false).unwrap_err();
    assert_eq!(unfinished.kept, Vec::<usize>::new());
    assert_eq!(unfinished.added, vec![0, 1]);
    assert_eq!(unfinished.added_paths, paths(&["a", "b"]));
    give_up(&mut s, &ix, unfinished, false);
    assert_eq!(s[0].path(), Some(paths(&["a"]).remove(0)));
    assert_eq!(s[1].path(), Some(paths(&["b"]).remove(0)));
    assert!(ix.slot_indices.is_empty());
}

#[test]
fn unchanged_disk_changes_nothing() {
    let mut s = slots(4);
    let mut ix = SlotMapIndex::new();
    let disk = paths(&["a", "b", "c"]);
    let plan = plan_consolidation(&s, &ix, &disk, false).unwrap();
    assert!(consolidate_with_disk_state(&mut s, &mut ix, plan, vec![b"/o".to_vec()], false));
    let (marker, used) = (ix.marker(), ix.slot_indices.clone());
    let plan = plan_consolidation(&s, &ix, &disk, true).unwrap();
    assert!(plan.index_unchanged && plan.added.is_empty() && plan.lost.is_empty());
    assert!(!consolidate_with_disk_state(&mut s, &mut ix, plan, vec![b"/o".to_vec()], true));
    assert_eq!(ix.slot_indices, used);
    assert!(!needs_new_snapshot(&ix, marker));
}

#[test]
fn packs_are_loaded() {
    let mut s = slots(2);
    let mut ix = SlotMapIndex::new();
    let plan = plan_consolidation(&s, &ix, &paths(&["a"]), false).unwrap();
    consolidate_with_disk_state(&mut s, &mut ix, plan, vec![b"/o".to_vec()], false);
    let id = PackId { index: ix.slot_indices[0], multipack_index: None };
    assert!(matches!(load_pack(&s, &ix, id, ix.marker()), PackLoad::Read));
    let mut old = ix.marker();
    old.generation = old.generation.wrapping_add(1);
    assert!(matches!(load_pack(&s, &ix, id, old), PackLoad::Stale));
}

#[test]
fn large_packs_come_first() {
    assert!(is_pack_index(b"/o/pack/pack-1.idx"));
    assert!(!is_pack_index(b"/o/pack/pack-1.pack"));
    let v = vec![
        IndexOnDisk { path: b"s".to_vec(), size: 1 },
        IndexOnDisk { path: b"l".to_vec(), size: 9 },
        IndexOnDisk { path: b"m".to_vec(), size: 5 },
    ];
    assert_eq!(sorted_by_size(v), vec![b"l".to_vec(), b"m".to_vec(), b"s".to_vec()]);
}

#[test]
fn handles_are_counted() {
    let mut h = Handles { stable: 0, unstable: 0 };
    let mode = h.register_handle();
    assert_eq!(mode, HandleMode::DeletedPacksAreInaccessible);
    assert!(!h.maintain_stable_indices());
    let mode = h.upgrade_handle(mode);
    assert_eq!(mode, HandleMode::KeepDeletedPacksAvailable);
    assert!(h.maintain_stable_indices());
    h.remove_handle(mode);
    assert_eq!((h.stable, h.unstable), (0, 0));
}

#[test]
fn slots_for_packs() {
    let mut s = Slot::new();
    assert!(s.is_free_for(b"/a.idx", false));
    s.set_to_index(b"/a.idx".to_vec(), 4);
    assert_eq!(s.generation, 4);
    assert_eq!(s.path(), Some(b"/a.idx".to_vec()));
    assert!(!s.is_free_for(b"/a.idx", true));
    assert!(s.is_free_for(b"/b.idx", true));
    if let Some(files) = &mut s.files {
        files.index.state = OnDiskFileState::Missing;
    }
    assert!(!s.is_free_for(b"/b.idx", true));
    assert!(s.is_free_for(b"/b.idx", false));
}

fn found() -> (ObjectKind, Vec<u8>) {
    (ObjectKind::Blob, b"x".to_vec())
}

#[test]
fn objects_are_looked_for() {
    let f = Finding { recursion: 0, num_loose_dbs: 2 };
    assert!(matches!(f.next(FindEvent::Begin), FindAction::Search));
    let (kind, data) = found();
    assert!(matches!(f.next(FindEvent::Searched(FindStep::Found(kind, data))), FindAction::Give(Some(o)) if o == found()));
    let pack = PackId { index: 1, multipack_index: None };
    assert!(matches!(f.next(FindEvent::Searched(FindStep::NeedsPack(pack))), FindAction::LoadPack(p) if p == pack));
    assert!(matches!(f.next(FindEvent::PackLoaded(Ok(true))), FindAction::Search));
    assert!(matches!(f.next(FindEvent::Searched(FindStep::NotPacked)), FindAction::AskLoose(0)));
    assert!(matches!(f.next(FindEvent::LooseAsked(0, false)), FindAction::AskLoose(1)));
    assert!(matches!(f.next(FindEvent::LooseAsked(0, true)), FindAction::ReadLoose(0)));
    assert!(matches!(f.next(FindEvent::LooseAsked(1, false)), FindAction::Refresh));
    assert!(matches!(f.next(FindEvent::Refreshed(Ok(true))), FindAction::Search));
    assert!(matches!(f.next(FindEvent::Refreshed(Ok(false))), FindAction::Give(None)));
    assert!(matches!(f.next(FindEvent::LooseRead(Ok(Some(found())))), FindAction::Give(Some(o)) if o == found()));
    let base = ObjectId::empty_tree();
    assert!(matches!(f.next(FindEvent::Searched(FindStep::NeedsBase(base))), FindAction::FindBase(b) if b.same(&base)));
    assert!(matches!(f.next(FindEvent::BaseFound(Ok(Some(found())))), FindAction::SearchWithBase(ObjectKind::Blob, d)
        if d == b"x"));
    assert!(matches!(f.next(FindEvent::BaseFound(Ok(None))), FindAction::Fail(_)));
    assert!(matches!(f.next(FindEvent::Searched(FindStep::Failed(GitError::Gen))), FindAction::Fail(GitError::Gen)));
    let deep = Finding { recursion: 32, num_loose_dbs: 0 };
    assert!(matches!(deep.next(FindEvent::Begin), FindAction::Fail(GitError::Gen)));
}

#[test]
fn packs_that_were_not_seen() {
    let begin = |initialized, changed| load_one_index(RefreshEvent::Begin { initialized, changed });
    assert_eq!(begin(false, true), RefreshAction::Consolidate { load_new_index: false });
    assert_eq!(begin(true, true), RefreshAction::Show);
    assert_eq!(begin(true, false), RefreshAction::LoadNext);
    assert_eq!(load_one_index(RefreshEvent::NextLoaded(true)), RefreshAction::Show);
    assert_eq!(load_one_index(RefreshEvent::NextLoaded(false)), RefreshAction::Consolidate { load_new_index: true });
    let read = |changed, load_new_index| load_one_index(RefreshEvent::Consolidated { changed, load_new_index });
    assert_eq!(read(false, true), RefreshAction::Nothing);
    assert_eq!(read(true, true), RefreshAction::LoadAndShow);
    assert_eq!(read(true, false), RefreshAction::Show);
}

#[test]
fn slots_are_put_in_the_order_of_the_disk() {
    let mut s = slots(4);
    let mut ix = SlotMapIndex::new();
    let dbs = || vec![b"/o".to_vec()];
    let plan = plan_consolidation(&s, &ix, &paths(&["b"]), false).unwrap();
    assert!(consolidate_with_disk_state(&mut s, &mut ix, plan, dbs(), false));
    let disk = paths(&["a", "b"]);
    let plan = plan_consolidation(&s, &ix, &disk, false).unwrap();
    assert!(consolidate_with_disk_state(&mut s, &mut ix, plan, dbs(), false));
    assert_eq!(ix.slot_indices, vec![0, 1]);
    let plan = plan_consolidation(&s, &ix, &disk, false).unwrap();
    assert!(!plan.index_unchanged && plan.added.is_empty() && plan.lost.is_empty());
    assert!(consolidate_with_disk_state(&mut s, &mut ix, plan, dbs(), false));
    assert_eq!(ix.slot_indices, vec![1, 0]);
    let plan = plan_consolidation(&s, &ix, &disk, false).unwrap();
    assert!(plan.index_unchanged);
    assert!(!consolidate_with_disk_state(&mut s, &mut ix, plan, dbs(), false));
    assert_eq!(s[1].path(), Some(paths(&["a"]).remove(0)));
}
