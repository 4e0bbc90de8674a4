use helix_ext::ignore::chain::{
    common_dir, commondir_file, create_gitignore, gitdir_line, resolve_git_commondir, ChildFiles, ChildRules,
    FirstLine, Ignore, IgnoreMatch, IgnoreOptions, Shared,
};
use helix_ext::ignore::entry::{DirEntry, DirEntryRaw, FileType};
use helix_ext::ignore::error::{Error, Match, PartialErrorBuilder};
use helix_ext::ignore::excludes::{
    excludes_file_default, excludes_path, expand_tilde, gitconfig_excludes_path, parse_excludes_file, GitVariables,
};
use helix_ext::ignore::gitignore::{Gitignore, GitignoreBuilder};
use helix_ext::ignore::paths::{has_no_separator, is_hidden, path_file_name, strip_if_is_prefix, strip_path_prefix};
use helix_ext::ignore::types::{Types, TypesBuilder};

fn rules(root: &[u8], lines: &[&str]) -> Gitignore {
    let mut b = GitignoreBuilder::new(root);
    for line in lines {
        assert!(b.add_line(line).is_ok());
    }
    match b.build() {
        Ok(g) => g,
        Err(_) => panic!("the rules can be built"),
    }
}

fn entry(path: &[u8], ty: FileType, depth: usize) -> DirEntry {
    DirEntry::new_raw(DirEntryRaw { path: path.to_vec(), ty, follow_link: false, depth, ino: 1 }, None)
}

#[test]
fn later_rules_decide() {
    let g = rules(b".", &["*.o", "!keep.o", "/top", "dir/", "a/b"]);
    assert!(matches!(g.matched(b"x.o", false), Match::Ignore(0)));
    assert!(matches!(g.matched(b"sub/x.o", false), Match::Ignore(0)));
    assert!(matches!(g.matched(b"keep.o", false), Match::Whitelist(1)));
    assert!(matches!(g.matched(b"top", false), Match::Ignore(2)));
    assert!(matches!(g.matched(b"sub/top", false), Match::Nothing));
    assert!(matches!(g.matched(b"dir", true), Match::Ignore(3)));
    assert!(matches!(g.matched(b"dir", false), Match::Nothing));
    assert!(matches!(g.matched(b"sub/dir", true), Match::Ignore(3)));
    assert!(matches!(g.matched(b"a/b", false), Match::Ignore(4)));
    assert!(matches!(g.matched(b"x/a/b", false), Match::Nothing));
    assert!(matches!(g.matched(b"./x.o", false), Match::Ignore(0)));
}

#[test]
fn rules_are_read_from_lines() {
    let g = rules(b"/r", &["# comment", "", "   ", "\\#x", "\\!y", "trailing   ", "kept\\ "]);
    assert!(matches!(g.matched(b"/r/#x", false), Match::Ignore(0)));
    assert!(matches!(g.matched(b"/r/!y", false), Match::Ignore(1)));
    assert!(matches!(g.matched(b"/r/trailing", false), Match::Ignore(2)));
    assert!(matches!(g.matched(b"/r/kept ", false), Match::Ignore(3)));
    assert!(g.matched(b"/r/other", false).is_none());
    assert_eq!(g.strip(b"/r/other"), b"other");
    assert!(!g.is_empty());
    assert!(Gitignore::empty().is_empty());
    assert!(Gitignore::empty_in(b"/r").is_empty());
}

#[test]
fn everything_below_a_directory() {
    let g = rules(b".", &["build/**", "**/tmp", "a/**/z"]);
    assert!(g.matched(b"build/x", false).is_ignore());
    assert!(g.matched(b"build", true).is_none());
    assert!(g.matched(b"x/y/tmp", true).is_ignore());
    assert!(g.matched(b"a/z", false).is_ignore());
    assert!(g.matched(b"a/b/c/z", false).is_ignore());
}

#[test]
fn errors_in_rules_have_their_lines() {
    let mut b = GitignoreBuilder::new(b".");
    let err = b.add_contents(b"rules", b"*.o\n{a\n*.c\n[z-a]\n");
    match err {
        Some(Error::Partial(errs)) => {
            assert_eq!(errs.len(), 2);
            assert!(matches!(&errs[0], Error::WithPath { path, err }
                if path.as_slice() == b"rules" && matches!(&**err, Error::WithLineNumber { line: 2, .. })));
            assert!(matches!(&errs[1], Error::WithPath { err, .. }
                if matches!(&**err, Error::WithLineNumber { line: 4, err } if matches!(&**err, Error::Glob { .. }))));
        },
        _ => panic!("two lines are wrong"),
    }
    match b.build() {
        Ok(g) => {
            assert!(g.matched(b"x.o", false).is_ignore());
            assert!(g.matched(b"x.c", false).is_ignore());
        },
        Err(_) => panic!(),
    }
}

#[test]
fn byte_order_mark_is_left_out() {
    let mut b = GitignoreBuilder::new(b".");
    assert!(b.add_contents(b"rules", b"\xef\xbb\xbf*.o\n").is_none());
    match b.build() {
        Ok(g) => assert!(g.matched(b"x.o", false).is_ignore()),
        Err(_) => panic!(),
    }
}

#[test]
fn case_of_rules() {
    let mut b = GitignoreBuilder::new(b".");
    b.case_insensitive(true);
    assert!(b.add_line("*.TXT").is_ok());
    match b.build() {
        Ok(g) => assert!(g.matched(b"a.txt", false).is_ignore()),
        Err(_) => panic!(),
    }
}

#[test]
fn types_that_are_left_out() {
    let mut b = TypesBuilder::new();
    assert!(b.add("rust", "*.rs").is_ok());
    assert!(b.add("c", "*.c").is_ok());
    assert!(b.add("c", "*.h").is_ok());
    b.negate("c");
    match b.build() {
        Ok(t) => {
            assert!(!t.is_empty());
            assert!(t.matched(b"src/a.c", false).is_ignore());
            assert!(t.matched(b"src/a.h", false).is_ignore());
            assert!(t.matched(b"src/a.rs", false).is_none());
            assert!(t.matched(b"a.c", true).is_none());
        },
        Err(_) => panic!(),
    }
    assert!(matches!(b.add("all", "*"), Err(Error::InvalidDefinition)));
    let mut every = TypesBuilder::new();
    assert!(every.add("c", "*.c").is_ok() && every.add("d", "*.d").is_ok() && every.add("c", "*.h").is_ok());
    every.negate("all");
    let every = every.build().unwrap_or_else(|_| panic!());
    assert!(every.matched(b"x.h", false).is_ignore() && every.matched(b"x.d", false).is_ignore());
    b.negate("missing");
    assert!(matches!(b.build(), Err(Error::UnrecognizedFileType(name)) if name == "missing"));
    let mut b = TypesBuilder::new();
    assert!(b.add("bad", "{a").is_ok());
    b.negate("bad");
    assert!(matches!(b.build(), Err(Error::Glob { glob: Some(g), .. }) if g == "{a"));
    assert!(Types::empty().is_empty());
}

fn options() -> IgnoreOptions {
    IgnoreOptions {
        hidden: true,
        ignore: true,
        parents: true,
        git_global: true,
        git_ignore: true,
        git_exclude: true,
        ignore_case_insensitive: false,
        require_git: true,
    }
}

fn chain(global: &[&str]) -> Ignore {
    Ignore::new(Shared {
        opts: options(),
        types: Types::empty(),
        explicit_ignores: Vec::new(),
        custom_ignore_filenames: vec![b".helix/ignore".to_vec()],
        git_global_matcher: rules(b"", global),
    })
}

fn child(dir: &[u8], custom: &[&str], ignore: &[&str], git: &[&str], has_git: bool) -> ChildRules {
    ChildRules {
        custom: rules(dir, custom),
        ignore: rules(dir, ignore),
        git_ignore: rules(dir, git),
        git_exclude: Gitignore::empty(),
        has_git,
    }
}

#[test]
fn inner_rules_come_first() {
    let root = chain(&[]).add_child(b"/r", child(b"/r", &[], &["*.o"], &[], true));
    let inner = root.add_child(b"/r/sub", child(b"/r/sub", &[], &["!keep.o"], &[], false));
    assert!(root.matched(b"/r/keep.o", false).is_ignore());
    assert!(inner.matched(b"/r/sub/keep.o", false).is_whitelist());
    assert!(inner.matched(b"/r/sub/x.o", false).is_ignore());
    assert!(inner.matched(b"/r/sub/x.c", false).is_none());
    assert!(inner.matched(b"/r/sub/.hidden", false).is_none());
    let hidden = entry(b"/r/sub/.hidden", FileType::File, 2);
    assert!(matches!(inner.matched_dir_entry(&hidden), Match::Ignore(IgnoreMatch::Hidden)));
    assert!(inner.has_any_ignore_rules());
    assert!(!inner.is_root());
    match inner.parent() {
        Some(p) => assert!(p.matched(b"/r/keep.o", false).is_ignore()),
        None => panic!(),
    }
    assert_eq!(inner.inner_dirs(), vec![b"/r/sub".to_vec(), b"/r".to_vec()]);
}

#[test]
fn rules_of_git_stop_at_a_repository() {
    let outer = chain(&["*.log"]).add_child(b"/r", child(b"/r", &[], &[], &["*.o"], true));
    let other = outer.add_child(b"/r/vendor", child(b"/r/vendor", &[], &[], &[], true));
    assert!(outer.matched(b"/r/x.o", false).is_ignore());
    assert!(other.matched(b"/r/vendor/x.o", false).is_none());
    assert!(other.matched(b"/r/vendor/x.log", false).is_ignore());
    let outside = chain(&["*.log"]).add_child(b"/p", child(b"/p", &[], &[], &["*.o"], false));
    assert!(outside.matched(b"/p/x.o", false).is_none());
    assert!(outside.matched(b"/p/x.log", false).is_none());
}

#[test]
fn custom_rules_come_before_the_others() {
    let ig = chain(&[]).add_child(b"/r", child(b"/r", &["!x.o"], &["*.o"], &[], true));
    assert!(ig.matched(b"/r/x.o", false).is_whitelist());
    assert!(ig.matched(b"/r/y.o", false).is_ignore());
    assert!(ig.matched_dir_entry(&entry(b"/r/y.o", FileType::File, 1)).is_ignore());
}

#[test]
fn files_with_rules_in_a_directory() {
    let ig = chain(&[]);
    let names = vec![b".gitignore".to_vec(), b".git".to_vec(), b".helix/ignore".to_vec()];
    let found = ig.collect_ignore_files(&names);
    assert!(!found.has_ignore && found.has_git_ignore && found.has_git_dir && !found.has_jj_dir);
    assert_eq!(found.custom_ignore_files, vec![true]);
    let plan = ig.child_plan(Some(&found));
    assert!(plan.git_type && !plan.jj_dir && !plan.ignore && plan.git_ignore && plan.git_exclude);
    assert_eq!(plan.custom, vec![b".helix/ignore".to_vec()]);
    let all = ig.child_plan(None);
    assert!(all.git_type && all.jj_dir && all.ignore && all.git_ignore && all.git_exclude);
    assert!(ig.needs_parents());
    assert!(ig.is_root());
}

#[test]
fn rules_from_files() {
    let files = vec![(b"/r/.ignore".to_vec(), b"*.o\n".to_vec()), (b"/r/.more".to_vec(), b"!a.o\n{\n".to_vec())];
    let (g, err) = create_gitignore(b"/r", &files, false);
    assert!(g.matched(b"/r/b.o", false).is_ignore());
    assert!(g.matched(b"/r/a.o", false).is_whitelist());
    assert!(err.is_some());
    assert_eq!(gitdir_line(b"gitdir: ../x"), Some(&b"../x"[..]));
    assert_eq!(gitdir_line(b"nothing"), None);
    assert_eq!(common_dir(b"/r/.git/worktrees/w", b"../.."), b"/r/.git/worktrees/w/../..".to_vec());
}

#[test]
fn errors_of_the_rules() {
    let io = Error::Io("denied".to_string());
    assert!(io.is_io());
    let deep = Error::Io("denied".to_string()).with_path(b"/a").with_depth(3);
    assert!(deep.is_io());
    assert_eq!(deep.description(), "denied");
    let line = Error::InvalidDefinition.tagged(b"/f", 7);
    assert!(matches!(&line, Error::WithPath { path, err }
        if path.as_slice() == b"/f" && matches!(&**err, Error::WithLineNumber { line: 7, .. })));
    assert_eq!(line.description(), "invalid definition");
    let l = Error::from_walkdir(2, Some(b"/c".to_vec()), Some(b"/a".to_vec()), String::new());
    assert!(matches!(&l, Error::WithDepth { depth: 2, err }
        if matches!(&**err, Error::Loop { ancestor, child } if ancestor == b"/a" && child == b"/c")));
    assert_eq!(l.description(), "file system loop found");
    assert_eq!(Error::UnrecognizedFileType("x".to_string()).description(), "unrecognized file type");
    assert_eq!(Error::Partial(Vec::new()).description(), "partial error");

    let mut b = PartialErrorBuilder::new();
    b.push_ignore_io(Error::Io("x".to_string()));
    b.maybe_push_ignore_io(None);
    b.maybe_push(None);
    assert!(b.into_error_option().is_none());
    let mut b = PartialErrorBuilder::new();
    b.add_error(Error::InvalidDefinition);
    assert!(matches!(b.into_error_option(), Some(Error::InvalidDefinition)));
    let mut b = PartialErrorBuilder::new();
    b.add_error(Error::InvalidDefinition);
    b.add_error(Error::InvalidDefinition);
    assert!(matches!(b.into_error_option(), Some(Error::Partial(v)) if v.len() == 2));
}

#[test]
fn first_answer_counts() {
    let a: Match<u8> = Match::Nothing;
    assert!(matches!(a.or(Match::Ignore(1)), Match::Ignore(1)));
    let b: Match<u8> = Match::Whitelist(2);
    assert!(matches!(b.or(Match::Ignore(1)), Match::Whitelist(2)));
}

#[test]
fn paths_of_entries() {
    assert!(has_no_separator(b"abc"));
    assert!(!has_no_separator(b"a/bc"));
    assert_eq!(strip_path_prefix(b"./", b"./a"), Some(&b"a"[..]));
    assert_eq!(strip_path_prefix(b"/x", b"./a"), None);
    assert_eq!(strip_if_is_prefix(b"/x", b"./a"), b"./a");
    assert_eq!(path_file_name(b"a/b"), Some(&b"b"[..]));
    assert_eq!(path_file_name(b"a/.."), None);
    assert!(is_hidden(b"a/.b"));
    assert!(!is_hidden(b".a/b"));
}

#[test]
fn configured_excludes() {
    assert_eq!(expand_tilde("~/x", Some("/h")), "/h/x");
    assert_eq!(expand_tilde("~/x", None), "~/x");
    assert_eq!(excludes_path(b"~/.gi", Some("/h")), Some("/h/.gi".to_string()));
    assert_eq!(
        parse_excludes_file(b"[core]\n\texcludesFile = ~/.gi\n", Some("/h")),
        Some("/h/.gi".to_string())
    );
    assert_eq!(parse_excludes_file(b"[core]\n", Some("/h")), None);
    assert_eq!(excludes_file_default(Some(b"/c"), Some(b"/h")), Some(b"/c/git/ignore".to_vec()));
    assert_eq!(excludes_file_default(None, Some(b"/h")), Some(b"/h/.config/git/ignore".to_vec()));
    assert_eq!(excludes_file_default(None, None), None);
    let files = vec![b"nothing".to_vec(), b"excludesfile = /x\n".to_vec()];
    assert_eq!(gitconfig_excludes_path(&files, None), Some("/x".to_string()));
}

#[test]
fn texts_of_errors() {
    let line = Error::InvalidDefinition.tagged(b"/f", 7);
    assert_eq!(line.to_text(), "/f: line 7: invalid definition (format is type:glob, e.g., html:*.html)");
    let glob = Error::Glob { glob: Some("{a".to_string()), err: "bad".to_string() };
    let both = Error::Partial(vec![glob, Error::Glob { glob: None, err: "bad".to_string() }]);
    assert_eq!(both.to_text(), "error parsing glob '{a': bad\nbad");
    assert_eq!(Error::UnrecognizedFileType("x".to_string()).to_text(), "unrecognized file type: x");
    let looped = Error::Loop { ancestor: b"/a".to_vec(), child: b"/a/b".to_vec() };
    assert_eq!(looped.with_depth(2).to_text(), "File system loop found: /a/b points to an ancestor /a");
    assert_eq!(Error::Io("denied".to_string()).with_path(b"/a\xff").to_text(), "/a\u{fffd}: denied");
}

#[test]
fn copied_chain_says_the_same() {
    let root = chain(&[]).add_child(b"/r", child(b"/r", &[], &["*.o"], &[], true));
    let copy = root.copy();
    assert!(copy.options().hidden && !copy.options().ignore_case_insensitive);
    for path in [b"/r/x.o".as_slice(), b"/r/x.c"] {
        let e = entry(path, FileType::File, 1);
        assert_eq!(root.matched_dir_entry(&e).is_ignore(), copy.matched_dir_entry(&e).is_ignore());
    }
    assert!(copy.matched_dir_entry(&entry(b"/r/x.o", FileType::File, 1)).is_ignore());
}

fn child_files(ignore: &[u8], exclude: Result<Vec<u8>, Option<Error>>) -> ChildFiles {
    ChildFiles {
        git: true,
        jj: false,
        custom: Vec::new(),
        ignore: vec![(b"/r/.ignore".to_vec(), ignore.to_vec())],
        git_ignore: Vec::new(),
        git_exclude: exclude.map(|text| vec![(b"/r/.git/info/exclude".to_vec(), text)]),
    }
}

#[test]
fn rules_of_a_directory() {
    let root = chain(&[]);
    let (rules, err) =
        root.add_child_path_with_found_ignore_files(b"/r", None, child_files(b"*.o\n{a\n", Ok(b"*.e\n".to_vec())));
    assert!(rules.has_git);
    assert_eq!(err.unwrap().to_text().split(':').next(), Some("/r/.ignore"));
    assert!(rules.ignore.matched(b"/r/x.o", false).is_ignore());
    assert!(rules.git_exclude.matched(b"/r/x.e", false).is_ignore());
    assert!(rules.git_ignore.is_empty());
    let found = root.collect_ignore_files(&vec![b".git".to_vec(), b"x".to_vec()]);
    let failed = Err(Some(Error::Io("denied".to_string())));
    let (rules, err) = root.add_child_path_with_found_ignore_files(b"/r", Some(&found), child_files(b"*.o\n", failed));
    assert!(rules.ignore.is_empty() && rules.git_exclude.is_empty());
    assert!(err.is_none());
    let flawed = Err(Some(Error::InvalidDefinition));
    let (_, err) = root.add_child_path_with_found_ignore_files(b"/r", Some(&found), child_files(b"*.o\n", flawed));
    assert!(matches!(err, Some(Error::InvalidDefinition)));
    let (rules, err) = root.add_child_path_with_found_ignore_files(b"/r", None, child_files(b"\xff\n", Err(None)));
    assert!(err.is_none());
    assert!(rules.ignore.is_empty());
}

#[test]
fn rules_of_the_directories_above() {
    let root = chain(&[]);
    let outer = (child_files(b"*.a\n", Err(None)), false);
    let inner = (child_files(b"!x.a\n{\n", Err(None)), true);
    let (ig, err) = root.add_parents(b"/r/w".to_vec(), vec![outer, inner]);
    assert!(matches!(err, Some(Error::WithPath { .. })));
    let walk = ig.add_child(b"w", child(b"w", &[], &[], &[], false));
    assert!(walk.matched_dir_entry(&entry(b"w/y.a", FileType::File, 1)).is_ignore());
    assert!(!walk.matched_dir_entry(&entry(b"w/x.a", FileType::File, 1)).is_ignore());
}

#[test]
fn directories_of_working_trees() {
    let line = |text: &str| FirstLine::Line(text.as_bytes().to_vec());
    let ok = resolve_git_commondir(b"/w", false, FirstLine::Missing, FirstLine::Missing);
    assert!(matches!(ok, Ok(p) if p == b"/w/.git"));
    assert_eq!(commondir_file(&line("gitdir: /r/.git/worktrees/w")), Some(b"/r/.git/worktrees/w/commondir".to_vec()));
    assert_eq!(commondir_file(&line("else")), None);
    let ok = resolve_git_commondir(b"/w", true, line("gitdir: /r/.git/worktrees/w"), line("../.."));
    assert!(matches!(ok, Ok(p) if p == b"/r/.git/worktrees/w/../.."));
    let ok = resolve_git_commondir(b"/w", true, line("gitdir: /r/.git/worktrees/w"), line("/r/.git"));
    assert!(matches!(ok, Ok(p) if p == b"/r/.git"));
    let failed = || FirstLine::Failed("denied".to_string());
    let err = resolve_git_commondir(b"/w", true, failed(), FirstLine::Missing);
    assert!(matches!(err, Err(Some(e)) if e.to_text() == "/w/.git: denied"));
    let err = resolve_git_commondir(b"/w", true, line("gitdir: /g"), failed());
    assert!(matches!(err, Err(Some(e)) if e.to_text() == "/g/commondir: denied"));
    assert!(matches!(resolve_git_commondir(b"/w", true, line("else"), FirstLine::Missing), Err(None)));
    let unopened = FirstLine::Unopened("no".to_string());
    assert!(matches!(resolve_git_commondir(b"/w", true, line("gitdir: /g"), unopened), Err(None)));
}

#[test]
fn order_of_rule_files() {
    let set = |custom: &[&str], ignore: &[&str], git: &[&str]| {
        chain(&["*.x"]).add_child(b"/r", child(b"/r", custom, ignore, git, true))
    };
    let x = entry(b"/r/a.x", FileType::File, 1);
    assert!(set(&[], &[], &[]).matched_dir_entry(&x).is_ignore());
    assert!(!set(&[], &[], &["!*.x"]).matched_dir_entry(&x).is_ignore());
    assert!(set(&[], &["*.x"], &["!*.x"]).matched_dir_entry(&x).is_ignore());
    assert!(!set(&["!*.x"], &["*.x"], &["!*.x"]).matched_dir_entry(&x).is_ignore());
    assert!(chain(&[]).matched(b"/r/a.x", false).is_none());
    assert!(rules(b"/r", &[]).matched(b"/r/a.x", false).is_none());
}

#[test]
fn places_of_git_configurations() {
    let names = |v: GitVariables<'_>| v.gitconfig_paths().into_iter().map(|p| String::from_utf8(p).unwrap()).collect();
    let none = GitVariables { config_global: None, config_system: None, config_home: None, home: None };
    let all: Vec<String> = names(none);
    assert_eq!(all, ["/etc/gitconfig"]);
    let home = GitVariables { config_global: Some(b""), home: Some(b"/h"), ..none };
    let all: Vec<String> = names(home);
    assert_eq!(all, ["/h/.gitconfig", "/h/.config/git/config", "/etc/gitconfig"]);
    let set = GitVariables {
        config_global: Some(b"/g"),
        config_system: Some(b"/s"),
        config_home: Some(b"/c"),
        home: Some(b"/h"),
    };
    let all: Vec<String> = names(set);
    assert_eq!(all, ["/g", "/h/.gitconfig", "/c/git/config", "/s"]);
}

#[test]
fn later_files_decide() {
    let first = (b"/r/.one".to_vec(), b"*.log\n!a.txt\n".to_vec());
    let second = (b"/r/.two".to_vec(), b"!keep.log\n*.txt\n".to_vec());
    let (g, err) = create_gitignore(b"/r", &vec![first, second], false);
    assert!(err.is_none());
    assert!(g.matched(b"/r/keep.log", false).is_whitelist());
    assert!(g.matched(b"/r/other.log", false).is_ignore());
    assert!(g.matched(b"/r/a.txt", false).is_ignore());
}
