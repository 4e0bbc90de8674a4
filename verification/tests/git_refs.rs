use helix_ext::git::alternates::{content, Pending, Search};
use helix_ext::git::error::GitError;
use helix_ext::git::oid::ObjectId;
use helix_ext::git::refs::follow::{Followed, Peel};
use helix_ext::git::refs::loose::{parse, Target};
use helix_ext::git::refs::name::{
    is_pseudo_ref, validate_reference_name, validate_reference_name_partial, validate_tag_name_inner, Category,
    FullName, FullNameRef, PartialName,
};
use helix_ext::git::refs::packed::{header, reference, Iter, PackedBuffer, Peeled};
use helix_ext::git::refs::store::{
    candidate_names, find_one_with_verified_input, recent_snapshot, Lookup, RawReference, RefFile, RefFileStore, SnapshotAction,
};

const ID: &[u8] = b"ce013625030ba8dba906f756967f9e9ca394464a";

#[test]
fn names_of_references() {
    for good in [&b"refs/heads/main"[..], b"HEAD", b"refs/tags/v1.0", b"refs/a-b/c@d"] {
        assert!(validate_reference_name(good).is_ok(), "{:?}", good);
    }
    for bad in [
        &b""[..],
        b"refs/heads/",
        b"refs//x",
        b"refs/.x",
        b"refs/x.lock",
        b"refs/x..y",
        b"refs/x y",
        b"refs/x@{y",
        b"refs/x~",
        b"main",
        b"/refs/x",
        b"refs/x\x7f",
    ] {
        assert!(matches!(validate_reference_name(bad), Err(GitError::Gen)), "{:?}", bad);
    }
    assert!(validate_reference_name_partial(b"main").is_ok());
    assert!(validate_reference_name_partial(b"-x").is_ok());
    assert!(validate_tag_name_inner(b"@").is_ok());
    assert!(is_pseudo_ref(b"FETCH_HEAD") && !is_pseudo_ref(b"main"));
    assert!(FullName::hx_try_from(b"main".to_vec()).is_err());
    assert!(PartialName::hx_try_from(b"a b".to_vec()).is_err());
}

#[test]
fn short_names() {
    let short = |name: &'static [u8]| FullNameRef(name).shorten();
    assert_eq!(short(b"refs/heads/main"), "main");
    assert_eq!(short(b"refs/tags/v1"), "v1");
    assert_eq!(short(b"refs/remotes/origin/main"), "origin/main");
    assert_eq!(short(b"HEAD"), "HEAD");
    assert_eq!(short(b"refs/other/x"), "refs/other/x");
    let (c, rest) = FullNameRef(b"worktrees/w/refs/bisect/x").category_and_short_name().unwrap();
    assert!(matches!(&c, Category::LinkedRef(name) if name == b"w"));
    assert_eq!(rest, b"refs/bisect/x");
    assert!(matches!(FullNameRef(b"main-worktree/HEAD").category_and_short_name(), Some((Category::MainPseudoRef, b"HEAD"))));
    assert_eq!(Category::Tag.prefix(), b"refs/tags/");
    assert!(Category::Bisect.is_worktree_private() && !Category::Tag.is_worktree_private());
    assert_eq!(FullNameRef(b"refs/heads/\xff").shorten(), "\u{fffd}");
}

#[test]
fn partial_names_are_completed() {
    let p = PartialName::hx_try_from(b"main".to_vec()).unwrap();
    assert_eq!(p.construct_full_name_ref(b"tags", true).0, b"refs/tags/main".to_vec());
    assert_eq!(p.construct_full_name_ref(b"", true).0, b"refs/main".to_vec());
    assert!(p.is(b"main"));
    assert!(!p.looks_like_full_name(true));
    assert_eq!(p.join(b"x").unwrap().0, b"main/x".to_vec());
    assert!(matches!(p.join(b"a b"), Err(GitError::Gen)));
    let names: Vec<Vec<u8>> = candidate_names(&p).into_iter().map(|n| n.0).collect();
    assert_eq!(
        names,
        vec![
            b"refs/main".to_vec(),
            b"refs/tags/main".to_vec(),
            b"refs/heads/main".to_vec(),
            b"refs/remotes/main".to_vec(),
            b"refs/remotes/main/HEAD".to_vec()
        ]
    );
    let full = PartialName::hx_try_from(b"refs/heads/main".to_vec()).unwrap();
    assert_eq!(candidate_names(&full)[0].0, b"refs/heads/main".to_vec());
    let head = PartialName::hx_try_from(b"HEAD".to_vec()).unwrap();
    assert_eq!(candidate_names(&head)[0].0, b"HEAD".to_vec());
}

#[test]
fn files_of_references() {
    assert!(matches!(parse(b"ref: refs/heads/main\n"), Ok(Target::Symbolic(n)) if n.0 == b"refs/heads/main"));
    assert!(matches!(parse(b"ref:   refs/heads/main\r\n"), Ok(Target::Symbolic(n)) if n.0 == b"refs/heads/main"));
    let mut text = ID.to_vec();
    text.push(b'\n');
    assert!(matches!(parse(&text), Ok(Target::Object(i)) if i.as_oid().hex_to_vec() == ID));
    text.insert(0, b'a');
    assert!(matches!(parse(&text), Err(GitError::Gen)));
    assert!(parse(b"ref: a b").is_err());
    assert!(parse(b"").is_err());
}

#[test]
fn names_are_looked_up() {
    let name = PartialName::hx_try_from(b"main".to_vec()).unwrap();
    let mut files = Vec::new();
    for full in ["refs/main", "refs/tags/main", "refs/heads/main"] {
        assert!(matches!(find_one_with_verified_input(&name, &files), Lookup::Read(n) if n.0 == full.as_bytes()));
        files.push(RefFile::Missing);
    }
    files.pop();
    files.push(RefFile::Contents(ID.to_vec()));
    match find_one_with_verified_input(&name, &files) {
        Lookup::Found(found) => {
            assert_eq!(found.name.0, b"refs/heads/main".to_vec());
            assert!(found.target.try_id().is_some() && found.peeled.is_none());
        },
        _ => panic!("the branch is there"),
    }
    files.push(RefFile::Failed);
    assert!(matches!(find_one_with_verified_input(&name, &files), Lookup::Found(_)));
    let failed = vec![RefFile::NotADirectory, RefFile::Failed];
    assert!(matches!(find_one_with_verified_input(&name, &failed), Lookup::Failed(GitError::Gen)));
    let broken = vec![RefFile::Contents(b"x".to_vec())];
    assert!(matches!(find_one_with_verified_input(&name, &broken), Lookup::Failed(GitError::Gen)));
    let nothing: Vec<RefFile> = (0..5).map(|_| RefFile::Missing).collect();
    assert!(matches!(find_one_with_verified_input(&name, &nothing), Lookup::NotFound));
}

#[test]
fn places_of_references() {
    let s = RefFileStore::at(b"/r/.git".to_vec());
    assert_eq!(s.reference_path(FullNameRef(b"refs/heads/main")), b"/r/.git/refs/heads/main".to_vec());
    assert_eq!(s.packed_refs_path(), b"/r/.git/packed-refs".to_vec());
    let w = RefFileStore {
        git_dir: b"/r/.git/worktrees/w".to_vec(),
        packed_buffer_mmap_threshold: s.packed_buffer_mmap_threshold,
        common_dir: Some(b"/r/.git".to_vec()),
    };
    assert_eq!(w.common_dir_resolved(), b"/r/.git");
    assert_eq!(w.reference_path(FullNameRef(b"refs/heads/main")), b"/r/.git/refs/heads/main".to_vec());
    assert_eq!(w.reference_path(FullNameRef(b"HEAD")), b"/r/.git/worktrees/w/HEAD".to_vec());
    assert_eq!(w.reference_path(FullNameRef(b"refs/bisect/x")), b"/r/.git/worktrees/w/refs/bisect/x".to_vec());
    assert_eq!(w.reference_path(FullNameRef(b"main-worktree/HEAD")), b"/r/.git/HEAD".to_vec());
    let (base, name) = w.to_base_dir_and_relative_name(FullNameRef(b"worktrees/v/HEAD"), true);
    assert_eq!((base, name), (b"/r/.git/worktrees/v".to_vec(), b"HEAD".to_vec()));
}

#[test]
fn snapshots_of_packed_references() {
    assert_eq!(recent_snapshot(None, None), SnapshotAction::Keep);
    assert_eq!(recent_snapshot(None, Some(1)), SnapshotAction::Open);
    assert_eq!(recent_snapshot(Some(1), None), SnapshotAction::Forget);
    assert_eq!(recent_snapshot(Some(1), Some(1)), SnapshotAction::Keep);
    assert_eq!(recent_snapshot(Some(1), Some(2)), SnapshotAction::Open);
}

fn packed() -> Vec<u8> {
    let mut t = b"# pack-refs with: peeled fully-peeled \n".to_vec();
    for name in ["refs/tags/v2", "refs/heads/b", "refs/heads/a"] {
        t.extend_from_slice(ID);
        t.extend_from_slice(b" ");
        t.extend_from_slice(name.as_bytes());
        t.extend_from_slice(b"\n");
        if name == "refs/tags/v2" {
            t.extend_from_slice(b"^");
            t.extend_from_slice(ID);
            t.extend_from_slice(b"\n");
        }
    }
    t
}

fn names(data: &[u8]) -> Vec<Vec<u8>> {
    let mut it = Iter::new(data).unwrap();
    let mut out = Vec::new();
    while let Some(r) = it.next() {
        out.push(r.unwrap().name.to_vec());
    }
    out
}

#[test]
fn packed_references() {
    let data = packed();
    let (h, start) = header(&data).unwrap();
    assert!(h.peeled == Peeled::Fully && !h.sorted);
    let (r, next) = reference(&data, start).unwrap();
    assert_eq!(r.name, b"refs/tags/v2");
    assert_eq!(r.object, Some(ID));
    assert_eq!(r.target().as_oid().hex_to_vec(), ID.to_vec());
    assert_eq!(&data[next..next + 4], b"ce01");
    assert_eq!(names(&data), vec![b"refs/tags/v2".to_vec(), b"refs/heads/b".to_vec(), b"refs/heads/a".to_vec()]);
    let opened = PackedBuffer::open_with_backing(data).unwrap();
    assert_eq!(
        names(opened.hx_as_ref()),
        vec![b"refs/heads/a".to_vec(), b"refs/heads/b".to_vec(), b"refs/tags/v2".to_vec()]
    );
    let again = PackedBuffer::open_with_backing(opened.hx_as_ref().to_vec()).unwrap();
    assert_eq!(again.hx_as_ref(), opened.hx_as_ref());
    let mut heads = Iter::new_with_prefix(opened.hx_as_ref(), Some(b"refs/heads/".to_vec())).unwrap();
    assert!(heads.next().unwrap().is_ok());
    assert!(heads.next().unwrap().is_ok());
    assert!(heads.next().is_none());
    assert!(matches!(PackedBuffer::open_with_backing(b"# other\n".to_vec()), Err(GitError::Gen)));
    let mut broken = Iter::new(b"x\n").unwrap();
    assert!(matches!(broken.next(), Some(Err(GitError::Gen))));
}

#[test]
fn sorted_files_stay() {
    let mut t = b"# pack-refs with: peeled sorted \n".to_vec();
    t.extend_from_slice(ID);
    t.extend_from_slice(b" refs/heads/a\n");
    let opened = PackedBuffer::open_with_backing(t.clone()).unwrap();
    assert_eq!(opened.data, t);
    assert_eq!(names(opened.hx_as_ref()), vec![b"refs/heads/a".to_vec()]);
}

#[test]
fn references_are_followed() {
    let mut f = Followed::new();
    for name in [&b"a"[..], b"b", b"c", b"d"] {
        assert!(f.step(name.to_vec()).is_ok());
    }
    assert!(matches!(f.step(b"e".to_vec()), Err(GitError::Gen)));
    let mut g = Followed::new();
    assert!(g.step(b"a".to_vec()).is_ok());
    assert!(matches!(g.step(b"a".to_vec()), Err(GitError::Gen)));
    let mut r = RawReference {
        name: FullName(b"HEAD".to_vec()),
        target: Target::Symbolic(FullName(b"refs/heads/a".to_vec())),
        peeled: None,
    };
    assert!(matches!(r.peel_plan(), Peel::Follow(n) if n == b"refs/heads/a"));
    r.target = Target::Object(ObjectId::empty_tree());
    assert!(matches!(r.peel_plan(), Peel::Check(_)));
    r.peeled_to(ObjectId::empty_tree());
    assert!(matches!(r.peel_plan(), Peel::Known(i) if i.same(&ObjectId::empty_tree())));
}

#[test]
fn alternates_of_objects() {
    let lines = content(b"# comment\n/a\n\n\"/b c\"\nrel\n").unwrap();
    assert_eq!(lines, vec![b"/a".to_vec(), b"/b c".to_vec(), b"rel".to_vec()]);
    assert!(matches!(content(b"\"a\\x\"\n"), Err(GitError::Gen)));
    let mut s = Search::new(b"/r/objects".to_vec(), b"/r/objects".to_vec());
    let first = s.next_dir().unwrap();
    assert_eq!((first.depth, first.dir.clone()), (0, b"/r/objects".to_vec()));
    let path = s.alternate_path(b"../x");
    assert_eq!(path, b"/r/objects/../x".to_vec());
    assert!(s.add_alternate(first.depth, path, b"/r/x".to_vec()).is_ok());
    assert!(matches!(
        s.add_alternate(first.depth, b"/r/objects".to_vec(), b"/r/objects".to_vec()),
        Err(GitError::Gen)
    ));
    s.searched(first);
    let second: Pending = s.next_dir().unwrap();
    assert_eq!(second.depth, 1);
    s.searched(second);
    assert!(s.next_dir().is_none());
    assert_eq!(s.found, vec![b"/r/objects/../x".to_vec()]);
}
