use helix_ext::ignore::chain::{ChildFiles, Ignore};
use helix_ext::ignore::entry::{DirEntry, DirEntryRaw, FileType};
use helix_ext::ignore::error::Error;
use helix_ext::ignore::gitignore::Gitignore;
use helix_ext::ignore::order::{name_order, Depths, LevelStep, Levels};
use helix_ext::ignore::run::{
    check_symlink_loop, deactivated_step, first_stack, idle_step, steal_order, take_filtered, take_followed,
    take_loop_checked, take_output_checked, take_root, take_sized, take_typed, Action, Event, IdleAction, MessageKind, Run, TakeAction,
    TakeSettings,
};
use helix_ext::ignore::walk::{
    could_be_file, entry_action, root_action, should_skip_entry, skip_filesize, skip_step, thread_count,
    walkdir_is_dir, EntryAction, RootAction, SkipPhase, SkipStep, WalkBuilder, WalkEvent, WalkEventIter, WalkOptions,
    WalkState,
};

fn entry(path: &[u8], ty: FileType, depth: usize) -> DirEntry {
    DirEntry::new_raw(DirEntryRaw { path: path.to_vec(), ty, follow_link: false, depth, ino: 5 }, None)
}

fn no_rules() -> Ignore {
    let mut b = WalkBuilder::new(b"/r");
    b.hidden(true);
    b.build_ignore(Gitignore::empty())
}

#[test]
fn entries_say_what_they_are() {
    let e = entry(b"/r/a.rs", FileType::File, 2);
    assert_eq!(e.path(), b"/r/a.rs");
    assert_eq!(e.file_name(), b"a.rs");
    assert_eq!(e.depth(), 2);
    assert_eq!(e.ino(), Some(5));
    assert!(!e.is_dir() && !e.is_stdin() && !e.path_is_symlink());
    assert!(matches!(e.file_type(), Some(t) if t.is_file()));
    assert_eq!(e.into_path(), b"/r/a.rs".to_vec());
    let link = entry(b"/r/l", FileType::Symlink, 1);
    assert!(link.path_is_symlink());
    let stdin = DirEntry::new_stdin();
    assert!(stdin.is_stdin());
    assert!(stdin.file_type().is_none());
    assert_eq!(stdin.depth(), 0);
    assert_eq!(stdin.ino(), None);
    assert_eq!(stdin.path(), b"<stdin>");
}

#[test]
fn settings_of_a_walk() {
    let mut opts = WalkOptions::default();
    assert!(opts.hidden && opts.git_ignore && !opts.follow_links && opts.max_depth.is_none());
    opts.root = b"/r".to_vec();
    opts.hidden = false;
    let mut b = WalkBuilder::from_options(opts);
    b.max_depth(Some(3)).parents(false).git_global(false).git_exclude(false).git_ignore(false).ignore(false);
    b.follow_links(true).sort_by_file_name(true).add_custom_ignore_filename(b".x");
    b.add_path(b"/s");
    let ig = b.build_ignore(Gitignore::empty());
    assert!(!should_skip_entry(&ig, &entry(b"/r/.hidden", FileType::File, 1)));
    assert!(should_skip_entry(&no_rules(), &entry(b"/r/.hidden", FileType::File, 1)));
    assert!(!should_skip_entry(&no_rules(), &entry(b"/r/seen", FileType::File, 1)));
}

#[test]
fn number_of_threads() {
    assert_eq!(thread_count(3, 100), 3);
    assert_eq!(thread_count(0, 100), 12);
    assert_eq!(thread_count(0, 5), 5);
}

#[test]
fn steps_of_leaving_out() {
    let ig = no_rules();
    let hidden = entry(b"/r/.h", FileType::File, 1);
    let plain = entry(b"/r/a", FileType::File, 1);
    let dir = entry(b"/r/d", FileType::Dir, 1);
    let root = entry(b"/r", FileType::Dir, 0);
    assert!(skip_step(SkipPhase::Rules, &ig, &root, true, Some(1), true) == SkipStep::Filter);
    assert!(skip_step(SkipPhase::Rules, &ig, &root, true, Some(1), false) == SkipStep::Decided(false));
    let stdin = DirEntry::new_stdin();
    assert!(skip_step(SkipPhase::Rules, &ig, &stdin, true, Some(1), true) == SkipStep::Filter);
    assert!(skip_step(SkipPhase::Size, &ig, &plain, true, Some(1), true) == SkipStep::Filter);
    assert!(skip_step(SkipPhase::Size, &ig, &plain, true, Some(1), false) == SkipStep::Decided(false));
    assert!(skip_step(SkipPhase::Rules, &ig, &hidden, true, Some(1), true) == SkipStep::Decided(true));
    assert!(skip_step(SkipPhase::Rules, &ig, &plain, true, Some(1), true) == SkipStep::IsOutput);
    assert!(skip_step(SkipPhase::Output, &ig, &plain, true, Some(1), true) == SkipStep::Size(1));
    assert!(skip_step(SkipPhase::Output, &ig, &dir, true, Some(1), true) == SkipStep::Filter);
    assert!(skip_step(SkipPhase::Output, &ig, &dir, true, Some(1), false) == SkipStep::Decided(false));
    assert!(skip_filesize(10, Some(11)));
    assert!(!skip_filesize(10, Some(10)));
    assert!(!skip_filesize(10, None));
    assert!(could_be_file(&plain, 5));
    assert!(!could_be_file(&plain, 6));
}

#[test]
fn exits_match_depth() {
    let mut it = WalkEventIter::new();
    assert!(it.next(Some((0, Some(true)))) == WalkEvent::Dir);
    assert!(it.next(Some((1, Some(true)))) == WalkEvent::Dir);
    assert!(it.next(Some((2, Some(false)))) == WalkEvent::File);
    assert!(it.next(Some((1, Some(false)))) == WalkEvent::Exit);
    assert!(it.next(Some((1, Some(false)))) == WalkEvent::File);
    assert!(it.next(None) == WalkEvent::Exit);
    assert!(it.next(None) == WalkEvent::End);
    assert!(it.next(Some((0, None))) == WalkEvent::Failed);
    assert!(walkdir_is_dir(FileType::Symlink, 0, true));
    assert!(!walkdir_is_dir(FileType::Symlink, 1, true));
    assert!(walkdir_is_dir(FileType::Dir, 1, false));
}

#[test]
fn work_on_a_directory() {
    let mut run = Run::new(&entry(b"/r", FileType::Dir, 0), None, None, false);
    assert!(run.step(Event::Begin) == Action::AddParents);
    assert!(run.step(Event::ParentsAdded { failed: false }) == Action::ReadDir);
    assert!(run.step(Event::DirRead { failed: false, entries: 2, errors: 1 }) == Action::VisitEntry);
    assert!(run.step(Event::Visited(WalkState::Continue)) == Action::Take(0));
    assert!(run.step(Event::Taken(WalkState::Continue)) == Action::Take(1));
    assert!(run.step(Event::Taken(WalkState::Skip)) == Action::VisitEntryError(0));
    assert!(run.step(Event::Visited(WalkState::Continue)) == Action::Done(WalkState::Continue));
}

#[test]
fn skipped_directory_is_not_entered() {
    let mut run = Run::new(&entry(b"/r", FileType::Dir, 0), None, None, false);
    run.step(Event::Begin);
    run.step(Event::ParentsAdded { failed: false });
    run.step(Event::DirRead { failed: false, entries: 2, errors: 0 });
    assert!(run.step(Event::Visited(WalkState::Skip)) == Action::Done(WalkState::Skip));
}

#[test]
fn quit_ends_the_work() {
    let mut run = Run::new(&entry(b"/r", FileType::Dir, 0), None, None, false);
    run.step(Event::Begin);
    assert!(run.step(Event::ParentsAdded { failed: true }) == Action::VisitParentsError);
    assert!(run.step(Event::Visited(WalkState::Quit)) == Action::Done(WalkState::Quit));
    assert!(WalkState::Quit.is_quit());
    assert!(WalkState::Continue.is_continue());
}

#[test]
fn other_file_systems_are_not_entered() {
    let mut run = Run::new(&entry(b"/r/m", FileType::Dir, 1), None, Some(3), true);
    run.step(Event::Begin);
    assert!(run.step(Event::ParentsAdded { failed: false }) == Action::CheckDevice);
    assert!(run.step(Event::OnDevice(Some(false))) == Action::AddRules);
    assert!(run.step(Event::RulesAdded) == Action::VisitEntry);
    assert!(run.step(Event::Visited(WalkState::Continue)) == Action::Done(WalkState::Skip));
    let mut run = Run::new(&entry(b"/r/m", FileType::Dir, 1), None, Some(1), true);
    run.step(Event::Begin);
    run.step(Event::ParentsAdded { failed: false });
    assert!(run.step(Event::OnDevice(None)) == Action::VisitDeviceError);
    assert!(run.step(Event::Visited(WalkState::Continue)) == Action::AddRules);
}

#[test]
fn directories_that_cannot_be_read() {
    let mut run = Run::new(&entry(b"/r/m", FileType::Dir, 1), Some(2), None, false);
    run.step(Event::Begin);
    run.step(Event::ParentsAdded { failed: false });
    assert!(run.step(Event::DirRead { failed: true, entries: 0, errors: 0 }) == Action::VisitReadError);
    assert!(run.step(Event::Visited(WalkState::Continue)) == Action::Done(WalkState::Continue));
    let mut leaf = Run::new(&entry(b"/r/f", FileType::File, 1), None, None, false);
    assert!(leaf.step(Event::Begin) == Action::VisitEntry);
    assert!(leaf.step(Event::Visited(WalkState::Quit)) == Action::Done(WalkState::Quit));
}

#[test]
fn taking_up_entries() {
    let s = TakeSettings { follow_links: true, skips_output: true, max_filesize: Some(9), has_filter: true };
    let ig = no_rules();
    let file = entry(b"/r/f", FileType::File, 1);
    let link = entry(b"/r/l", FileType::Symlink, 1);
    let hidden = entry(b"/r/.h", FileType::File, 1);
    let dir = entry(b"/r/d", FileType::Dir, 1);
    assert!(take_typed(s, &ig, &link) == TakeAction::FollowLink);
    assert!(take_typed(s, &ig, &file) == TakeAction::CheckOutput);
    assert!(take_typed(s, &ig, &hidden) == TakeAction::LeaveOut);
    assert!(take_followed(s, &ig, &dir) == TakeAction::CheckLoop);
    assert!(take_loop_checked(s, &ig, &dir, true) == TakeAction::VisitError);
    assert!(take_loop_checked(s, &ig, &dir, false) == TakeAction::CheckOutput);
    assert!(take_output_checked(s, &file, Some(true)) == TakeAction::LeaveOut);
    assert!(take_output_checked(s, &file, None) == TakeAction::VisitError);
    assert!(take_output_checked(s, &file, Some(false)) == TakeAction::CheckSize(9));
    assert!(take_sized(s, 9, Some(10)) == TakeAction::CheckFilter { too_large: true });
    assert!(take_sized(s, 9, Some(9)) == TakeAction::CheckFilter { too_large: false });
    assert!(take_root(s) == TakeAction::CheckFilter { too_large: false });
    assert!(take_filtered(false, true) == TakeAction::Send);
    assert!(take_filtered(false, false) == TakeAction::LeaveOut);
    assert!(take_filtered(true, true) == TakeAction::LeaveOut);
    let plain = TakeSettings { has_filter: false, ..s };
    assert!(take_sized(plain, 9, None) == TakeAction::Send);
    assert!(take_sized(plain, 9, Some(10)) == TakeAction::LeaveOut);
    assert!(take_root(plain) == TakeAction::Send);
}

#[test]
fn threads_without_work() {
    assert!(idle_step(Some(MessageKind::Work), false, false) == IdleAction::Work);
    assert!(idle_step(Some(MessageKind::Work), false, true) == IdleAction::Leave);
    assert!(idle_step(Some(MessageKind::Quit), false, false) == IdleAction::Leave);
    assert!(idle_step(None, false, false) == IdleAction::Deactivate);
    assert!(idle_step(None, true, false) == IdleAction::Wait);
    assert!(deactivated_step(0) == IdleAction::Leave);
    assert!(deactivated_step(2) == IdleAction::Wait);
    assert_eq!(steal_order(1, 4), vec![2, 3, 0]);
    assert_eq!(steal_order(0, 1), Vec::<usize>::new());
}

#[test]
fn every_other_thread_is_asked() {
    let mut seen = steal_order(2, 6);
    seen.sort();
    assert_eq!(seen, vec![0, 1, 3, 4, 5]);
    for i in 0..7 {
        assert!(first_stack(i, 7, 3) < 3);
    }
}

#[test]
fn loops_are_found() {
    let dirs = vec![b"/r/a".to_vec(), b"/r".to_vec()];
    let failed = || Error::Io("gone".to_string());
    assert!(check_symlink_loop(&dirs, &vec![Some(false), Some(false)], b"/r/a/l", 2, failed()).is_ok());
    match check_symlink_loop(&dirs, &vec![Some(false), Some(true)], b"/r/a/l", 2, failed()) {
        Err(Error::WithDepth { depth: 2, err }) => {
            assert!(matches!(&*err, Error::Loop { ancestor, child } if ancestor == b"/r" && child == b"/r/a/l"));
        },
        _ => panic!("a loop"),
    }
    match check_symlink_loop(&dirs, &vec![None, Some(true)], b"/r/a/l", 2, failed()) {
        Err(e) => assert!(e.is_io()),
        Ok(()) => panic!(),
    }
}

#[test]
fn plan_of_a_walk() {
    let mut b = WalkBuilder::new(b"/r");
    b.add_path(b"/s");
    b.max_depth(Some(3)).follow_links(true).sort_by_file_name(true);
    let plan = b.plan();
    assert_eq!(plan.paths, vec![b"/r".to_vec(), b"/s".to_vec()]);
    assert_eq!((plan.max_depth, plan.min_depth, plan.max_filesize), (Some(3), None, None));
    assert!(plan.follow_links && plan.sorted && !plan.same_file_system);
    assert_eq!(plan.threads, 0);
}

#[test]
fn what_is_done_with_entries() {
    assert_eq!(root_action(b"-", true), RootAction::GiveStdin);
    assert_eq!(root_action(b"/r", true), RootAction::AddParents);
    assert_eq!(root_action(b"/r/f", false), RootAction::Plain);
    assert_eq!(entry_action(true, Some(false)), EntryAction::Enter);
    assert_eq!(entry_action(true, Some(true)), EntryAction::PassBy);
    assert_eq!(entry_action(false, Some(false)), EntryAction::Give);
    assert_eq!(entry_action(false, Some(true)), EntryAction::LeaveOut);
    assert_eq!(entry_action(true, None), EntryAction::Fail);
    assert_eq!(entry_action(false, None), EntryAction::Fail);
}

fn with_custom_names(names: [&[u8]; 2]) -> Ignore {
    let mut b = WalkBuilder::new(b"/r");
    b.add_custom_ignore_filename(names[0]).add_custom_ignore_filename(names[1]);
    let root = b.build_ignore(Gitignore::empty());
    let text = |name: &[u8]| if name == b".b" { b"!x\n".to_vec() } else { b"x\n".to_vec() };
    let plan = root.child_plan(None);
    assert_eq!(plan.custom, vec![names[0].to_vec(), names[1].to_vec()]);
    let files = ChildFiles {
        git: false,
        jj: false,
        custom: plan.custom.iter().map(|n| ([b"/r/", n.as_slice()].concat(), text(n))).collect(),
        ignore: vec![(b"/r/.ignore".to_vec(), text(b".ignore"))],
        git_ignore: Vec::new(),
        git_exclude: Err(None),
    };
    let (rules, err) = root.add_child_path_with_found_ignore_files(b"/r", None, files);
    assert!(err.is_none());
    root.add_child(b"/r", rules)
}

#[test]
fn later_custom_name_decides() {
    let x = entry(b"/r/x", FileType::File, 1);
    assert!(!should_skip_entry(&with_custom_names([b".a", b".b"]), &x));
    assert!(should_skip_entry(&with_custom_names([b".b", b".a"]), &x));
}

/// Whether a walk in one thread leaves the entry out.
fn one_leaves_out(ig: &Ignore, e: &DirEntry, s: TakeSettings, output: bool, size: u64, holds: bool) -> bool {
    let mut phase = SkipPhase::Rules;
    loop {
        match skip_step(phase, ig, e, s.skips_output, s.max_filesize, s.has_filter) {
            SkipStep::Decided(skip) => return skip,
            SkipStep::IsOutput if output => return true,
            SkipStep::IsOutput => phase = SkipPhase::Output,
            SkipStep::Size(max) if size > max => return true,
            SkipStep::Size(_) => phase = SkipPhase::Size,
            SkipStep::Filter => return !holds,
        }
    }
}

/// Whether a walk in many threads leaves the entry out.
fn many_leave_out(ig: &Ignore, e: &DirEntry, s: TakeSettings, output: bool, size: u64, holds: bool) -> bool {
    let mut action = if e.depth() == 0 { take_root(s) } else { take_typed(s, ig, e) };
    loop {
        action = match action {
            TakeAction::CheckOutput => take_output_checked(s, e, Some(output)),
            TakeAction::CheckSize(max) => take_sized(s, max, Some(size)),
            TakeAction::CheckFilter { too_large } => take_filtered(too_large, holds),
            other => return other == TakeAction::LeaveOut,
        };
    }
}

#[test]
fn walks_leave_out_the_same() {
    let ig = no_rules();
    let flags = [false, true];
    for path in [b"/r/a".as_slice(), b"/r/.a"] {
        for (ty, depth) in [(FileType::File, 1), (FileType::Dir, 1), (FileType::File, 0)] {
            let e = entry(path, ty, depth);
            for (skips_output, has_filter) in [(false, false), (false, true), (true, false), (true, true)] {
                for max_filesize in [None, Some(3)] {
                    let s = TakeSettings { follow_links: false, skips_output, max_filesize, has_filter };
                    for (output, holds) in [(false, true), (false, false), (true, true)] {
                        for large in flags {
                            let size = if large { 4 } else { 3 };
                            assert_eq!(
                                one_leaves_out(&ig, &e, s, output, size, holds),
                                many_leave_out(&ig, &e, s, output, size, holds)
                            );
                        }
                    }
                }
            }
        }
    }
}

#[test]
fn entries_in_the_order_of_their_names() {
    let names = |v: &[&str]| v.iter().map(|n| Some(n.as_bytes().to_vec())).collect::<Vec<_>>();
    assert_eq!(name_order(&names(&["b", "a", "B", "ab", "a"])), vec![2, 1, 4, 3, 0]);
    assert_eq!(name_order(&vec![Some(b"x".to_vec()), None, Some(b"".to_vec()), None]), vec![1, 3, 2, 0]);
    assert!(name_order(&Vec::new()).is_empty());
}

/// A file, or a directory with what is in it.
struct Tree {
    name: &'static str,
    below: Option<Vec<Tree>>,
}

fn file(name: &'static str) -> Tree {
    Tree { name, below: None }
}

fn dir(name: &'static str, below: Vec<Tree>) -> Tree {
    Tree { name, below: Some(below) }
}

fn walk_through(top: &[Tree], depths: Depths) -> Vec<String> {
    let mut levels = Levels::new(depths);
    levels.enter(top.len());
    let order = |ts: &[Tree]| name_order(&ts.iter().map(|t| Some(t.name.as_bytes().to_vec())).collect());
    let mut within: Vec<(&[Tree], Vec<usize>)> = vec![(top, order(top))];
    let mut at: Vec<&str> = Vec::new();
    let mut given = Vec::new();
    loop {
        match levels.next() {
            LevelStep::End => return given,
            LevelStep::Leave => {
                within.pop();
                at.pop();
            },
            LevelStep::Take { depth, index } => {
                let (trees, places) = &within[depth - 1];
                let t: &Tree = &trees[places[index]];
                at.push(t.name);
                if levels.is_given(depth) {
                    given.push(at.join("/"));
                }
                match &t.below {
                    Some(below) => {
                        levels.enter(below.len());
                        within.push((below.as_slice(), order(below)));
                    },
                    None => {
                        at.pop();
                    },
                }
            },
        }
    }
}

#[test]
fn sorted_walks_ascend() {
    let top = vec![
        file("z"),
        dir("b", vec![file("y"), dir("x", vec![file("1")]), dir("empty", vec![])]),
        file("a.txt"),
        dir("a", vec![file("q")]),
    ];
    let all = walk_through(&top, Depths { min: None, max: None });
    assert_eq!(all, vec!["a", "a/q", "a.txt", "b", "b/empty", "b/x", "b/x/1", "b/y", "z"]);
    assert_eq!(walk_through(&top, Depths { min: None, max: Some(1) }), vec!["a", "a.txt", "b", "z"]);
    assert_eq!(walk_through(&top, Depths { min: Some(2), max: Some(2) }), vec!["a/q", "b/empty", "b/x", "b/y"]);
    assert!(walk_through(&top, Depths { min: None, max: Some(0) }).is_empty());
}

#[test]
fn directories_can_be_left() {
    let mut levels = Levels::new(Depths { min: Some(1), max: None });
    assert_eq!(levels.next(), LevelStep::End);
    assert!(!levels.is_given(0) && levels.is_given(1));
    levels.enter(2);
    assert_eq!(levels.next(), LevelStep::Take { depth: 1, index: 0 });
    levels.enter(3);
    levels.leave();
    assert_eq!(levels.next(), LevelStep::Take { depth: 1, index: 1 });
    assert_eq!(levels.next(), LevelStep::Leave);
    levels.leave();
    assert_eq!(levels.next(), LevelStep::End);
}

#[test]
fn every_entry_is_taken_once() {
    let e = entry(b"/r", FileType::Dir, 0);
    let mut run = Run::new(&e, None, None, false);
    let mut ev = Event::Begin;
    let mut seen = Vec::new();
    loop {
        let action = run.step(ev);
        seen.push(action);
        ev = match action {
            Action::AddParents => Event::ParentsAdded { failed: false },
            Action::ReadDir => Event::DirRead { failed: false, entries: 2, errors: 0 },
            Action::VisitEntry => Event::Visited(WalkState::Continue),
            Action::Take(_) => Event::Taken(WalkState::Continue),
            _ => break,
        };
    }
    let takes = [Action::Take(0), Action::Take(1), Action::Done(WalkState::Continue)];
    assert_eq!(seen[..3], [Action::AddParents, Action::ReadDir, Action::VisitEntry]);
    assert_eq!(seen[3..], takes);
}
