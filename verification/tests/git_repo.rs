use helix_ext::git::error::GitError;
use helix_ext::git::repo::discover::{
    classify, conformed_git_dir, git_candidate, gitdir, go_up, hx_from_gitdir_file, hx_is_git_with_metadata,
    plain_file, repository_kind, without_dot_git_dir, DirKind, GitRepositoryKind, GitRepositoryPathKind, GixDirEntry,
    PlainFile, ReadOutcome, RepositoryPath, RewriteSource,
};
use helix_ext::git::repo::realpath::{LinkAnswer, RealStep, Resolving};
use helix_ext::git::repo::worktree::GixWorktreeGixFsStack;

fn resolve(path: &[u8], links: &[(&[u8], &[u8])]) -> Result<Vec<u8>, GitError> {
    let mut r = Resolving::new(path, b"/cwd")?;
    loop {
        match r.advance()? {
            RealStep::Done => return Ok(r.real_path),
            RealStep::Ask => {
                let link = links.iter().find(|l| l.0 == r.real_path.as_slice());
                r.told(match link {
                    Some(l) => LinkAnswer::Link(l.1.to_vec()),
                    None => LinkAnswer::NotALink,
                })?;
            },
        }
    }
}

#[test]
fn paths_without_links() {
    assert_eq!(resolve(b"/a/b", &[]).unwrap(), b"/a/b".to_vec());
    assert_eq!(resolve(b"a/./b/../c", &[]).unwrap(), b"/cwd/a/c".to_vec());
    assert_eq!(resolve(b"/a/l/x", &[(b"/a/l", b"../b")]).unwrap(), b"/b/x".to_vec());
    assert_eq!(resolve(b"/a/l/x", &[(b"/a/l", b"/c")]).unwrap(), b"/c/x".to_vec());
    assert!(matches!(resolve(b"/a", &[(b"/a", b"/a")]), Err(GitError::Gen)));
    assert!(matches!(resolve(b"/..", &[]), Err(GitError::Gen)));
    assert!(matches!(resolve(b"", &[]), Err(GitError::Gen)));
    let mut r = Resolving::new(b"/a", b"/cwd").unwrap();
    assert!(r.advance().unwrap() == RealStep::Ask);
    assert!(matches!(r.told(LinkAnswer::Failed), Err(GitError::Gen)));
}

#[test]
fn real_paths_stay() {
    let links: [(&[u8], &[u8]); 2] = [(b"/a/l", b"../b"), (b"/b/m", b"/c/./d")];
    for path in [&b"/a/l/m/x"[..], b"a/../b", b"/", b"/a/l/.."] {
        let real = resolve(path, &links).unwrap();
        assert_eq!(resolve(&real, &links).unwrap(), real);
    }
    assert_eq!(resolve(b"/a/l/m/x", &links).unwrap(), b"/c/d/x".to_vec());
}

#[test]
fn long_paths_are_given_up() {
    let long: Vec<u8> = b"/x".repeat(2048);
    assert_eq!(resolve(&long, &[]).unwrap(), long);
    let longer: Vec<u8> = b"/x".repeat(2049);
    assert!(resolve(&longer, &[]).is_err());
}

#[test]
fn places_of_repositories() {
    let p = RepositoryPath::LinkedWorkTree { work_dir: b"/w".to_vec(), git_dir: b"/g".to_vec() };
    assert_eq!(p.helix_into_repository_dir(), b"/g".to_vec());
    assert_eq!(RepositoryPath::WorkTree(b"/w".to_vec()).helix_into_repository_dir(), b"/w/.git".to_vec());
    assert_eq!(RepositoryPath::Repository(b"/g".to_vec()).helix_into_repository_dir(), b"/g".to_vec());
    let (git, work) = RepositoryPath::WorkTree(b"/w".to_vec()).hx_into_repository_and_work_tree_directories();
    assert_eq!((git, work), (b"/w/.git".to_vec(), Some(b"/w".to_vec())));
    let (git, work) = RepositoryPath::Repository(b"/g".to_vec()).hx_into_repository_and_work_tree_directories();
    assert_eq!((git, work), (b"/g".to_vec(), None));
    assert_eq!(without_dot_git_dir(b"/w/.git".to_vec()), b"/w".to_vec());
    assert_eq!(without_dot_git_dir(b"/w".to_vec()), b"/w".to_vec());
    let kind = GitRepositoryKind::WorkTree { linked_git_dir: None };
    assert!(matches!(RepositoryPath::hx_from_dot_git_dir(b"/w/.git".to_vec(), kind, b"/c"),
        Some(RepositoryPath::WorkTree(w)) if w == b"/w"));
    let kind = GitRepositoryKind::PossiblyBare;
    assert!(matches!(RepositoryPath::hx_from_dot_git_dir(b"/w.git".to_vec(), kind, b"/c"),
        Some(RepositoryPath::Repository(w)) if w == b"/w.git"));
    let kind = GitRepositoryKind::WorkTreeGitDir { work_dir: b"/w".to_vec() };
    assert!(matches!(RepositoryPath::hx_from_dot_git_dir(b"/g".to_vec(), kind, b"/c"),
        Some(RepositoryPath::LinkedWorkTree { work_dir, git_dir }) if work_dir == b"/w" && git_dir == b"/g"));
}

#[test]
fn worktree_of_the_current_directory() {
    let kind = GitRepositoryKind::WorkTree { linked_git_dir: None };
    assert!(matches!(RepositoryPath::hx_from_dot_git_dir(b".git".to_vec(), kind, b"/cwd"),
        Some(RepositoryPath::WorkTree(w)) if w == b"."));
    let kind = GitRepositoryKind::WorkTree { linked_git_dir: Some(b"/g".to_vec()) };
    assert!(matches!(RepositoryPath::hx_from_dot_git_dir(b"/w/.git".to_vec(), kind, b"/cwd"),
        Some(RepositoryPath::LinkedWorkTree { work_dir, git_dir }) if work_dir == b"/w" && git_dir == b"/g"));
    let kind = GitRepositoryKind::SubmoduleGitDir;
    assert!(matches!(RepositoryPath::hx_from_dot_git_dir(b"/m".to_vec(), kind, b"/cwd"),
        Some(RepositoryPath::Repository(r)) if r == b"/m"));
}

#[test]
fn files_that_name_repositories() {
    assert_eq!(gitdir(b"gitdir: ../x\n").unwrap(), b"../x".to_vec());
    assert!(matches!(gitdir(b"gitdir: "), Err(GitError::Gen)));
    assert!(gitdir(b"nothing").is_err());
    assert_eq!(hx_from_gitdir_file(b"/w/.git", b"gitdir: ../g\n").unwrap(), b"/w/../g".to_vec());
    assert_eq!(hx_from_gitdir_file(b"/w/.git", b"gitdir: /g\n").unwrap(), b"/g".to_vec());
    assert!(matches!(plain_file(ReadOutcome::NotFound), PlainFile::Missing));
    assert!(matches!(plain_file(ReadOutcome::Failed), PlainFile::Failed));
    assert!(matches!(plain_file(ReadOutcome::Content(b"../..\n".to_vec())), PlainFile::Path(p) if p == b"../.."));
}

#[test]
fn kinds_of_repositories() {
    let (common, kind) = classify(b"/w/.git", false, &PlainFile::Missing, &PlainFile::Missing).unwrap();
    assert_eq!(common, b"/w/.git".to_vec());
    assert!(matches!(kind, DirKind::MaybeRepo));
    assert_eq!(repository_kind(b"/r/.git/modules/x"), Some(GitRepositoryPathKind::Submodule));
    assert_eq!(repository_kind(b"/r/.git/worktrees/w"), Some(GitRepositoryPathKind::LinkedWorktree));
    assert_eq!(repository_kind(b"/r/.git"), Some(GitRepositoryPathKind::Common));
    assert_eq!(repository_kind(b"/r"), None);
    assert_eq!(conformed_git_dir(b"/r/.git", b"/c", None), b"/r/.git".to_vec());
    let is_git = |kind: DirKind, dot_git: &[u8], index: bool, objects: bool, refs: bool| {
        hx_is_git_with_metadata(kind, dot_git.to_vec(), dot_git, index, objects, refs)
    };
    let k = is_git(DirKind::MaybeRepo, b"/w/.git", true, true, true);
    assert!(matches!(k, Ok(GitRepositoryKind::WorkTree { linked_git_dir: None })));
    let k = is_git(DirKind::MaybeRepo, b"/w", false, true, true);
    assert!(matches!(k, Ok(GitRepositoryKind::PossiblyBare)));
    let k = is_git(DirKind::LinkedWorkTreeDir, b"/m/.git/worktrees/w", false, true, true);
    assert!(matches!(k, Ok(GitRepositoryKind::WorkTree { linked_git_dir: Some(_) })));
    assert!(matches!(is_git(DirKind::MaybeRepo, b"/w/.git", true, false, true), Err(GitError::Gen)));
    assert!(matches!(is_git(DirKind::Submodule, b"/w/.git", true, true, false), Err(GitError::Gen)));
}

#[test]
fn candidates_are_tried_upwards() {
    assert_eq!(git_candidate(b"/a/b"), b"/a/b/.git".to_vec());
    assert_eq!(git_candidate(b"/a/.git"), b"/a/.git".to_vec());
    assert_eq!(go_up(b"/a/b/.git", b"/c"), Some(b"/a".to_vec()));
    assert_eq!(go_up(b"a/.git", b"/c/d"), Some(b"".to_vec()));
    assert_eq!(go_up(b".git", b"/c/d"), Some(b"/c".to_vec()));
    assert_eq!(go_up(b"/.git", b"/c"), None);
}

#[test]
fn sources_of_rewrites() {
    let a = RewriteSource::RewriteFromIndex { source_rela_path: b"x".to_vec() };
    assert_eq!(a.helix_rela_path(), b"x");
    let b = RewriteSource::CopyFromDirectoryEntry { source_dirwalk_entry: GixDirEntry { rela_path: b"y".to_vec() } };
    assert_eq!(b.helix_rela_path(), b"y");
}

#[test]
fn path_in_the_worktree() {
    let mut s = GixWorktreeGixFsStack::new(b"/w".to_vec());
    s.hx_make_relative_path_current(b"a/b/c");
    assert_eq!(s.hx_current_relative(), b"a/b/c".to_vec());
    assert!(!s.current_is_directory);
    s.hx_make_relative_path_current(b"a/d");
    assert_eq!(s.components, vec![b"a".to_vec(), b"d".to_vec()]);
    s.hx_make_relative_path_current(b"a");
    assert_eq!(s.hx_current_relative(), b"a".to_vec());
    assert!(s.current_is_directory);
}

#[test]
fn search_goes_up() {
    for (cursor, above) in [(&b"/a/b"[..], Some(b"/a".to_vec())), (b"/a", Some(b"/".to_vec())), (b"/", None)] {
        assert_eq!(go_up(&git_candidate(cursor), b"/cwd"), above);
    }
    assert_eq!(go_up(b"/a/.git", b"/cwd"), Some(b"/".to_vec()));
}
