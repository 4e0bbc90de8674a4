//! What a thread of a walk does with a directory: one step after another, each of which says
//! what is to be done next.
use crate::bytes::to_vec;
use crate::ignore::chain::Ignore;
use crate::ignore::entry::{DirEntry, FileType};
use crate::ignore::error::Error;
use crate::ignore::walk::{left_out, should_skip_entry, skip_filesize, SkipAnswers, SkipPhase, WalkState};
use vstd::prelude::*;

verus! {

/// How far the work on an entry has come: what was asked for last.
#[derive(Clone, Copy, Debug, PartialEq, Eq, Structural)]
pub enum Phase {
    Start,
    /// The rules of the directories above the root were asked for.
    Parents,
    /// An error in those rules was shown.
    ParentsError,
    /// It was asked whether the entry is on the file system of its root.
    Device,
    /// An error about that was shown.
    DeviceError,
    /// The directory was to be read.
    Read,
    /// Only the directory's rules were to be read.
    Rules,
    /// The entry was shown; it is not a directory to go into.
    Leaf,
    /// The entry was shown.
    Entry,
    /// An error in reading the directory was shown.
    ReadError,
    /// The entries of the directory are taken up one by one.
    Entries,
    /// The errors in reading single entries are shown one by one.
    Errors,
    Finished,
}

/// What came of what was asked for.
#[derive(Clone, Copy, Debug, PartialEq, Eq, Structural)]
pub enum Event {
    Begin,
    /// What the visitor said.
    Visited(WalkState),
    /// The rules of the directories above the root were read.
    ParentsAdded { failed: bool },
    /// Whether the entry is on the file system of its root. `None` after an error.
    OnDevice(Option<bool>),
    /// The directory was read.
    DirRead { failed: bool, entries: usize, errors: usize },
    /// The directory's rules were read.
    RulesAdded,
    /// What came of taking up an entry of the directory.
    Taken(WalkState),
}

/// What is to be done next.
#[derive(Clone, Copy, Debug, PartialEq, Eq, Structural)]
pub enum Action {
    /// Read the rules of the directories above the root.
    AddParents,
    /// Find out whether the entry is on the file system of its root.
    CheckDevice,
    /// Read the directory, and its rules.
    ReadDir,
    /// Read the directory's rules.
    AddRules,
    /// Show the entry to the visitor.
    VisitEntry,
    /// Show the error in the rules of the directories above the root.
    VisitParentsError,
    /// Show the error about the file system.
    VisitDeviceError,
    /// Show the error in reading the directory.
    VisitReadError,
    /// Take up an entry of the directory.
    Take(usize),
    /// Show an error in reading an entry of the directory.
    VisitEntryError(usize),
    /// The work on the entry is done.
    Done(WalkState),
}

/// The work on an entry.
#[derive(Clone, Copy, Debug, PartialEq, Eq, Structural)]
pub struct Run {
    pub phase: Phase,
    /// The entry is a directory, and no symbolic link.
    pub is_dir: bool,
    /// The entry is deep enough to be shown.
    pub should_visit: bool,
    /// The walk stays on the file system of its root.
    pub has_device: bool,
    /// The walk may go deeper.
    pub may_descend: bool,
    /// The walk goes into the directory.
    pub descend: bool,
    /// Whether the directory was read, and whether that failed.
    pub read: Option<bool>,
    pub entries: usize,
    pub errors: usize,
    /// The entry or error that comes next.
    pub next: usize,
}

/// The event is one that can come in the phase.
pub open spec fn can_come(phase: Phase, ev: Event) -> bool {
    match phase {
        Phase::Start => ev is Begin,
        Phase::Parents => ev is ParentsAdded,
        Phase::ParentsError => ev is Visited,
        Phase::Device => ev is OnDevice,
        Phase::DeviceError => ev is Visited,
        Phase::Read => ev is DirRead,
        Phase::Rules => ev is RulesAdded,
        Phase::Leaf => ev is Visited,
        Phase::Entry => ev is Visited,
        Phase::ReadError => ev is Visited,
        Phase::Entries => ev is Taken,
        Phase::Errors => ev is Visited,
        Phase::Finished => false,
    }
}

/// The walk goes on to the file system, or past it.
pub open spec fn to_device(run: Run) -> (Run, Action) {
    if run.has_device {
        (Run { phase: Phase::Device, ..run }, Action::CheckDevice)
    } else {
        to_read(Run { descend: true, ..run })
    }
}

/// The directory is read if the walk goes into it.
pub open spec fn to_read(run: Run) -> (Run, Action) {
    if run.descend && run.may_descend {
        (Run { phase: Phase::Read, ..run }, Action::ReadDir)
    } else {
        (Run { phase: Phase::Rules, ..run }, Action::AddRules)
    }
}

/// The entry is shown if it is deep enough.
pub open spec fn to_entry(run: Run) -> (Run, Action) {
    if run.should_visit {
        (Run { phase: Phase::Entry, ..run }, Action::VisitEntry)
    } else {
        to_contents(run)
    }
}

/// The contents of the directory are taken up if it was read.
pub open spec fn to_contents(run: Run) -> (Run, Action) {
    match run.read {
        None => finished(run, WalkState::Skip),
        Some(failed) => if failed {
            (Run { phase: Phase::ReadError, ..run }, Action::VisitReadError)
        } else {
            to_next(Run { next: 0, ..run })
        },
    }
}

/// The next entry of the directory, or the next error.
pub open spec fn to_next(run: Run) -> (Run, Action) {
    if run.next < run.entries {
        (
            Run { phase: Phase::Entries, next: (run.next + 1) as usize, ..run },
            Action::Take(run.next),
        )
    } else {
        to_next_error(Run { next: 0, ..run })
    }
}

/// The next error.
pub open spec fn to_next_error(run: Run) -> (Run, Action) {
    if run.next < run.errors {
        (
            Run { phase: Phase::Errors, next: (run.next + 1) as usize, ..run },
            Action::VisitEntryError(run.next),
        )
    } else {
        finished(run, WalkState::Continue)
    }
}

/// The work on the entry is done.
pub open spec fn finished(run: Run, state: WalkState) -> (Run, Action) {
    (Run { phase: Phase::Finished, ..run }, Action::Done(state))
}

/// The work after an event, and what is to be done next.
pub open spec fn stepped(run: Run, ev: Event) -> (Run, Action) {
    match (run.phase, ev) {
        (Phase::Start, _) => if run.is_dir {
            (Run { phase: Phase::Parents, ..run }, Action::AddParents)
        } else if run.should_visit {
            (Run { phase: Phase::Leaf, ..run }, Action::VisitEntry)
        } else {
            finished(run, WalkState::Continue)
        },
        (Phase::Parents, Event::ParentsAdded { failed }) => if failed {
            (Run { phase: Phase::ParentsError, ..run }, Action::VisitParentsError)
        } else {
            to_device(run)
        },
        (Phase::ParentsError, Event::Visited(s)) => if s == WalkState::Quit {
            finished(run, s)
        } else {
            to_device(run)
        },
        (Phase::Device, Event::OnDevice(on)) => match on {
            Some(b) => to_read(Run { descend: b, ..run }),
            None => (
                Run { phase: Phase::DeviceError, descend: false, ..run },
                Action::VisitDeviceError,
            ),
        },
        (Phase::DeviceError, Event::Visited(s)) => if s == WalkState::Quit {
            finished(run, s)
        } else {
            to_read(run)
        },
        (Phase::Read, Event::DirRead { failed, entries, errors }) => to_entry(
            Run { read: Some(failed), entries, errors, ..run },
        ),
        (Phase::Rules, _) => to_entry(run),
        (Phase::Leaf, Event::Visited(s)) => finished(run, s),
        (Phase::Entry, Event::Visited(s)) => if s != WalkState::Continue {
            finished(run, s)
        } else {
            to_contents(run)
        },
        (Phase::ReadError, Event::Visited(s)) => finished(run, s),
        (Phase::Entries, Event::Taken(s)) => if s == WalkState::Quit {
            finished(run, s)
        } else {
            to_next(run)
        },
        (Phase::Errors, Event::Visited(s)) => if s == WalkState::Quit {
            finished(run, s)
        } else {
            to_next_error(run)
        },
        _ => finished(run, WalkState::Continue),
    }
}

impl Run {
    /// The work on an entry of which nothing was done yet.
    pub fn new(
        dent: &DirEntry,
        min_depth: Option<usize>,
        max_depth: Option<usize>,
        has_device: bool,
    ) -> (r: Run)
        ensures
            r == (Run {
                phase: Phase::Start,
                is_dir: dent.type_view() == Some(FileType::Dir),
                should_visit: min_depth matches Some(m) ==> dent.depth_view() >= m,
                has_device,
                may_descend: max_depth matches Some(m) ==> dent.depth_view() < m,
                descend: false,
                read: None,
                entries: 0,
                errors: 0,
                next: 0,
            }),
    {
        let depth: usize = dent.depth();
        let should_visit: bool = match min_depth {
            Some(m) => depth >= m,
            None => true,
        };
        let may_descend: bool = match max_depth {
            Some(m) => depth < m,
            None => true,
        };
        Run {
            phase: Phase::Start,
            is_dir: dent.is_dir(),
            should_visit,
            has_device,
            may_descend,
            descend: false,
            read: None,
            entries: 0,
            errors: 0,
            next: 0,
        }
    }

    fn go_to_device(&mut self) -> (r: Action)
        ensures
            (*final(self), r) == to_device(*old(self)),
    {
        if self.has_device {
            self.phase = Phase::Device;
            Action::CheckDevice
        } else {
            self.descend = true;
            self.go_to_read()
        }
    }

    fn go_to_read(&mut self) -> (r: Action)
        ensures
            (*final(self), r) == to_read(*old(self)),
    {
        if self.descend && self.may_descend {
            self.phase = Phase::Read;
            Action::ReadDir
        } else {
            self.phase = Phase::Rules;
            Action::AddRules
        }
    }

    fn go_to_entry(&mut self) -> (r: Action)
        ensures
            (*final(self), r) == to_entry(*old(self)),
    {
        if self.should_visit {
            self.phase = Phase::Entry;
            Action::VisitEntry
        } else {
            self.go_to_contents()
        }
    }

    fn go_to_contents(&mut self) -> (r: Action)
        ensures
            (*final(self), r) == to_contents(*old(self)),
    {
        match self.read {
            None => self.finish(WalkState::Skip),
            Some(failed) => {
                if failed {
                    self.phase = Phase::ReadError;
                    Action::VisitReadError
                } else {
                    self.next = 0;
                    self.go_to_next()
                }
            },
        }
    }

    fn go_to_next(&mut self) -> (r: Action)
        ensures
            (*final(self), r) == to_next(*old(self)),
    {
        if self.next < self.entries {
            let i: usize = self.next;
            self.phase = Phase::Entries;
            self.next = i + 1;
            Action::Take(i)
        } else {
            self.next = 0;
            self.go_to_next_error()
        }
    }

    fn go_to_next_error(&mut self) -> (r: Action)
        ensures
            (*final(self), r) == to_next_error(*old(self)),
    {
        if self.next < self.errors {
            let i: usize = self.next;
            self.phase = Phase::Errors;
            self.next = i + 1;
            Action::VisitEntryError(i)
        } else {
            self.finish(WalkState::Continue)
        }
    }

    fn finish(&mut self, state: WalkState) -> (r: Action)
        ensures
            (*final(self), r) == finished(*old(self), state),
    {
        self.phase = Phase::Finished;
        Action::Done(state)
    }

    /// Takes note of an event, and says what is to be done next.
    pub fn step(&mut self, ev: Event) -> (r: Action)
        requires
            can_come(old(self).phase, ev),
        ensures
            (*final(self), r) == stepped(*old(self), ev),
    {
        match (self.phase, ev) {
            (Phase::Start, _) => {
                if self.is_dir {
                    self.phase = Phase::Parents;
                    Action::AddParents
                } else if self.should_visit {
                    self.phase = Phase::Leaf;
                    Action::VisitEntry
                } else {
                    self.finish(WalkState::Continue)
                }
            },
            (Phase::Parents, Event::ParentsAdded { failed }) => {
                if failed {
                    self.phase = Phase::ParentsError;
                    Action::VisitParentsError
                } else {
                    self.go_to_device()
                }
            },
            (Phase::ParentsError, Event::Visited(s)) => {
                if s.is_quit() {
                    self.finish(s)
                } else {
                    self.go_to_device()
                }
            },
            (Phase::Device, Event::OnDevice(on)) => match on {
                Some(b) => {
                    self.descend = b;
                    self.go_to_read()
                },
                None => {
                    self.phase = Phase::DeviceError;
                    self.descend = false;
                    Action::VisitDeviceError
                },
            },
            (Phase::DeviceError, Event::Visited(s)) => {
                if s.is_quit() {
                    self.finish(s)
                } else {
                    self.go_to_read()
                }
            },
            (Phase::Read, Event::DirRead { failed, entries, errors }) => {
                self.read = Some(failed);
                self.entries = entries;
                self.errors = errors;
                self.go_to_entry()
            },
            (Phase::Rules, _) => self.go_to_entry(),
            (Phase::Leaf, Event::Visited(s)) => self.finish(s),
            (Phase::Entry, Event::Visited(s)) => {
                if !s.is_continue() {
                    self.finish(s)
                } else {
                    self.go_to_contents()
                }
            },
            (Phase::ReadError, Event::Visited(s)) => self.finish(s),
            (Phase::Entries, Event::Taken(s)) => {
                if s.is_quit() {
                    self.finish(s)
                } else {
                    self.go_to_next()
                }
            },
            (Phase::Errors, Event::Visited(s)) => {
                if s.is_quit() {
                    self.finish(s)
                } else {
                    self.go_to_next_error()
                }
            },
            _ => self.finish(WalkState::Continue),
        }
    }
}

/// A visitor that wants the walk to end is not shown anything more of the entry.
pub proof fn law_quit_ends_the_work(run: Run, ev: Event)
    requires
        can_come(run.phase, ev),
        ev == Event::Visited(WalkState::Quit) || ev == Event::Taken(WalkState::Quit),
    ensures
        stepped(run, ev) == finished(run, WalkState::Quit),
{
}

/// Nothing in a directory is taken up once the visitor was shown the directory and did not
/// say that the walk goes on.
pub proof fn law_skipped_directory_is_not_entered(run: Run, state: WalkState)
    requires
        run.phase == Phase::Entry,
        state != WalkState::Continue,
    ensures
        stepped(run, Event::Visited(state)).1 == Action::Done(state),
{
}

/// The entries of a directory are taken up one after the other, from the first to the last.
pub proof fn law_entries_in_order(run: Run, state: WalkState)
    requires
        run.phase == Phase::Entries,
        state != WalkState::Quit,
    ensures
        run.next < run.entries ==> stepped(run, Event::Taken(state)).1 == Action::Take(run.next)
            && stepped(run, Event::Taken(state)).0.next == run.next + 1,
        run.next >= run.entries ==> !(stepped(run, Event::Taken(state)).1 is Take),
{
}

/// What comes of an action where nothing fails, the visitor wants the walk to go on, and the directory has so many
/// entries.
pub open spec fn plain_reply(action: Action, entries: usize) -> Event {
    match action {
        Action::AddParents => Event::ParentsAdded { failed: false },
        Action::CheckDevice => Event::OnDevice(Some(true)),
        Action::ReadDir => Event::DirRead { failed: false, entries, errors: 0 },
        Action::AddRules => Event::RulesAdded,
        Action::Take(_) => Event::Taken(WalkState::Continue),
        _ => Event::Visited(WalkState::Continue),
    }
}

/// What is done from an event on, in so many steps at most.
pub open spec fn actions_from(run: Run, ev: Event, entries: usize, steps: nat) -> Seq<Action>
    decreases steps,
{
    if steps == 0 {
        seq![]
    } else {
        let (after, action) = stepped(run, ev);
        if action is Done {
            seq![action]
        } else {
            seq![action] + actions_from(after, plain_reply(action, entries), entries, (steps - 1) as nat)
        }
    }
}

proof fn lemma_takes_from(run: Run, entries: usize, steps: nat)
    requires
        run.phase == Phase::Entries,
        run.entries == entries,
        run.errors == 0,
        run.next <= entries,
        steps > entries - run.next,
    ensures
        actions_from(run, Event::Taken(WalkState::Continue), entries, steps) == Seq::new(
            (entries - run.next) as nat,
            |i: int| Action::Take((run.next + i) as usize),
        ).push(Action::Done(WalkState::Continue)),
    decreases entries - run.next,
{
    let all = Seq::new((entries - run.next) as nat, |i: int| Action::Take((run.next + i) as usize)).push(
        Action::Done(WalkState::Continue),
    );
    if run.next < entries {
        let after = stepped(run, Event::Taken(WalkState::Continue)).0;
        lemma_takes_from(after, entries, (steps - 1) as nat);
        assert(all =~= seq![Action::Take(run.next)] + Seq::new(
            (entries - after.next) as nat,
            |i: int| Action::Take((after.next + i) as usize),
        ).push(Action::Done(WalkState::Continue)));
    } else {
        assert(all =~= seq![Action::Done(WalkState::Continue)]);
    }
}

/// Where nothing fails and the visitor wants the walk to go on, a directory is shown once, and then each of its entries
/// is taken up once, from the first to the last.
pub proof fn law_every_entry_is_taken_once(run: Run, entries: usize, steps: nat)
    requires
        run.phase == Phase::Read,
        run.should_visit,
        steps > entries + 1,
    ensures
        actions_from(run, plain_reply(Action::ReadDir, entries), entries, steps) == seq![Action::VisitEntry] + Seq::new(
            entries as nat,
            |i: int| Action::Take(i as usize),
        ).push(Action::Done(WalkState::Continue)),
{
    let (shown, first) = stepped(run, plain_reply(Action::ReadDir, entries));
    let ev = Event::Visited(WalkState::Continue);
    let takes = Seq::new(entries as nat, |i: int| Action::Take(i as usize)).push(Action::Done(WalkState::Continue));
    let (after, second) = stepped(shown, ev);
    assert(actions_from(shown, ev, entries, (steps - 1) as nat) == takes) by {
        if entries > 0 {
            lemma_takes_from(after, entries, (steps - 2) as nat);
            assert(takes =~= seq![Action::Take(0)] + Seq::new(
                (entries - 1) as nat,
                |i: int| Action::Take((1 + i) as usize),
            ).push(Action::Done(WalkState::Continue)));
        } else {
            assert(takes =~= seq![Action::Done(WalkState::Continue)]);
        }
    }
}

/// What is to be done next with an entry of a directory.
#[derive(Clone, Copy, Debug, PartialEq, Eq, Structural)]
pub enum TakeAction {
    /// Show the error to the visitor, who says how the walk goes on.
    VisitError,
    /// Find the file that the symbolic link points to.
    FollowLink,
    /// Find out whether the link leads into a loop.
    CheckLoop,
    /// Find out whether the entry is the file that the output goes to.
    CheckOutput,
    /// Find out the size of the file.
    CheckSize(u64),
    /// Find out whether the caller's predicate holds of the file, which is too large or not.
    CheckFilter { too_large: bool },
    /// Put the entry with the others that are to be worked on.
    Send,
    /// Leave the entry out.
    LeaveOut,
}

/// The settings of a walk that have to do with taking up entries.
#[derive(Clone, Copy, Debug, PartialEq, Eq, Structural)]
pub struct TakeSettings {
    pub follow_links: bool,
    pub skips_output: bool,
    pub max_filesize: Option<u64>,
    pub has_filter: bool,
}

/// What is asked once the rules have been asked.
pub open spec fn after_rules(s: TakeSettings, dent: DirEntry) -> TakeAction {
    if s.skips_output {
        TakeAction::CheckOutput
    } else {
        after_output(s, dent)
    }
}

/// What is asked once it is known that the entry is not the output.
pub open spec fn after_output(s: TakeSettings, dent: DirEntry) -> TakeAction {
    if s.max_filesize is Some && dent.type_view() != Some(FileType::Dir) {
        TakeAction::CheckSize(s.max_filesize->0)
    } else {
        after_size(s, false)
    }
}

/// What is asked once it is known whether the file is too large. The predicate is asked in any
/// case.
pub open spec fn after_size(s: TakeSettings, too_large: bool) -> TakeAction {
    if s.has_filter {
        TakeAction::CheckFilter { too_large }
    } else if too_large {
        TakeAction::LeaveOut
    } else {
        TakeAction::Send
    }
}

/// What is to be done once it is known whether the entry is the output. `None` after an error.
pub open spec fn by_output(s: TakeSettings, dent: DirEntry, is_output: Option<bool>) -> TakeAction {
    match is_output {
        None => TakeAction::VisitError,
        Some(true) => TakeAction::LeaveOut,
        Some(false) => after_output(s, dent),
    }
}

/// What is to be done once the size of the file is known, if it can be had.
pub open spec fn by_size(s: TakeSettings, max: u64, size: Option<u64>) -> TakeAction {
    after_size(s, size matches Some(n) && n > max)
}

/// What is to be done once it is known whether the predicate holds of a file that is too large
/// or not.
pub open spec fn by_filter(too_large: bool, holds: bool) -> TakeAction {
    if !too_large && holds {
        TakeAction::Send
    } else {
        TakeAction::LeaveOut
    }
}

/// What the rules say, and what is asked after them.
pub open spec fn by_rules(s: TakeSettings, ig: Ignore, dent: DirEntry) -> TakeAction {
    if ig.says_of(dent) is Ignore {
        TakeAction::LeaveOut
    } else {
        after_rules(s, dent)
    }
}

fn ask_after_output(s: TakeSettings, dent: &DirEntry) -> (r: TakeAction)
    ensures
        r == after_output(s, *dent),
{
    if let Some(max) = s.max_filesize {
        if !dent.is_dir() {
            return TakeAction::CheckSize(max);
        }
    }
    ask_after_size(s, false)
}

fn ask_after_size(s: TakeSettings, too_large: bool) -> (r: TakeAction)
    ensures
        r == after_size(s, too_large),
{
    if s.has_filter {
        TakeAction::CheckFilter { too_large }
    } else if too_large {
        TakeAction::LeaveOut
    } else {
        TakeAction::Send
    }
}

fn ask_rules(s: TakeSettings, ig: &Ignore, dent: &DirEntry) -> (r: TakeAction)
    requires
        ig.wf(),
    ensures
        r == by_rules(s, *ig, *dent),
{
    if should_skip_entry(ig, dent) {
        TakeAction::LeaveOut
    } else if s.skips_output {
        TakeAction::CheckOutput
    } else {
        ask_after_output(s, dent)
    }
}

/// What is to be done with an entry whose type is known.
pub fn take_typed(s: TakeSettings, ig: &Ignore, dent: &DirEntry) -> (r: TakeAction)
    requires
        ig.wf(),
    ensures
        r == (if s.follow_links && dent.type_view() == Some(FileType::Symlink) {
            TakeAction::FollowLink
        } else {
            by_rules(s, *ig, *dent)
        }),
{
    let is_symlink: bool = match dent.file_type() {
        Some(t) => t.is_symlink(),
        None => false,
    };
    if s.follow_links && is_symlink {
        TakeAction::FollowLink
    } else {
        ask_rules(s, ig, dent)
    }
}

/// What is to be done with an entry that was reached by following a symbolic link.
pub fn take_followed(s: TakeSettings, ig: &Ignore, dent: &DirEntry) -> (r: TakeAction)
    requires
        ig.wf(),
    ensures
        r == (if dent.type_view() == Some(FileType::Dir) {
            TakeAction::CheckLoop
        } else {
            by_rules(s, *ig, *dent)
        }),
{
    if dent.is_dir() {
        TakeAction::CheckLoop
    } else {
        ask_rules(s, ig, dent)
    }
}

/// What is to be done with a directory that was reached by following a symbolic link, once
/// it is known whether that leads into a loop.
pub fn take_loop_checked(s: TakeSettings, ig: &Ignore, dent: &DirEntry, loops: bool) -> (r:
    TakeAction)
    requires
        ig.wf(),
    ensures
        r == (if loops {
            TakeAction::VisitError
        } else {
            by_rules(s, *ig, *dent)
        }),
{
    if loops {
        TakeAction::VisitError
    } else {
        ask_rules(s, ig, dent)
    }
}

/// What is to be done once it is known whether the entry is the output. `None` after an
/// error.
pub fn take_output_checked(s: TakeSettings, dent: &DirEntry, is_output: Option<bool>) -> (r:
    TakeAction)
    ensures
        r == by_output(s, *dent, is_output),
{
    match is_output {
        None => TakeAction::VisitError,
        Some(is) => {
            if is {
                TakeAction::LeaveOut
            } else {
                ask_after_output(s, dent)
            }
        },
    }
}

/// What is to be done once the size of the file is known, if it can be had.
pub fn take_sized(s: TakeSettings, max: u64, size: Option<u64>) -> (r: TakeAction)
    ensures
        r == by_size(s, max, size),
{
    ask_after_size(s, skip_filesize(max, size))
}

/// What is to be done with a root. Only the predicate can leave it out.
pub fn take_root(s: TakeSettings) -> (r: TakeAction)
    ensures
        r == after_size(s, false),
{
    ask_after_size(s, false)
}

/// What is to be done once it is known whether the predicate holds of a file that is too large
/// or not.
pub fn take_filtered(too_large: bool, holds: bool) -> (r: TakeAction)
    ensures
        r == by_filter(too_large, holds),
{
    if !too_large && holds {
        TakeAction::Send
    } else {
        TakeAction::LeaveOut
    }
}

/// Where there is a predicate, no entry is worked on of which it was not asked.
pub proof fn law_predicate_is_asked(s: TakeSettings, ig: Ignore, dent: DirEntry, too_large: bool)
    requires
        s.has_filter,
    ensures
        by_rules(s, ig, dent) != TakeAction::Send,
        after_output(s, dent) != TakeAction::Send,
        after_size(s, too_large) != TakeAction::Send,
{
}

/// Whether an entry of which `action` is to be done next is left out in the end, with these
/// answers. `None` after an error.
pub open spec fn taken_out(action: TakeAction, s: TakeSettings, dent: DirEntry, a: SkipAnswers) -> Option<bool>
    decreases
            (match action {
                TakeAction::CheckOutput => 3int,
                TakeAction::CheckSize(_) => 2int,
                TakeAction::CheckFilter { too_large } => 1int,
                _ => 0int,
            }),
{
    match action {
        TakeAction::CheckOutput => taken_out(by_output(s, dent, a.is_output), s, dent, a),
        TakeAction::CheckSize(max) => taken_out(by_size(s, max, a.size), s, dent, a),
        TakeAction::CheckFilter { too_large } => taken_out(by_filter(too_large, a.holds), s, dent, a),
        TakeAction::Send => Some(false),
        TakeAction::LeaveOut => Some(true),
        TakeAction::VisitError | TakeAction::FollowLink | TakeAction::CheckLoop => None,
    }
}

/// A walk in one thread and one in many leave out the same entries. Links have been followed
/// where they are to be. Of a root, only the predicate is asked in either.
pub proof fn law_walks_leave_out_the_same(s: TakeSettings, ig: Ignore, dent: DirEntry, a: SkipAnswers)
    ensures
        left_out(SkipPhase::Rules, ig, dent, s.skips_output, s.max_filesize, s.has_filter, a) == taken_out(
            if dent.depth_view() == 0 {
                after_size(s, false)
            } else {
                by_rules(s, ig, dent)
            },
            s,
            dent,
            a,
        ),
{
    reveal_with_fuel(left_out, 3);
    reveal_with_fuel(taken_out, 4);
}

/// What a thread does next that has nothing to do.
#[derive(Clone, Copy, Debug, PartialEq, Eq, Structural)]
pub enum IdleAction {
    /// Work on what was received.
    Work,
    /// Tell the others to leave, and leave.
    Leave,
    /// Count as idle, and say how many threads are not.
    Deactivate,
    /// Wait, and receive again.
    Wait,
}

/// A message to a thread.
#[derive(Clone, Copy, Debug, PartialEq, Eq, Structural)]
pub enum MessageKind {
    Work,
    Quit,
}

/// What a thread does next that has received something, or nothing. A thread that waits
/// counts as idle already. When the walk ends, all that counts is to leave.
pub fn idle_step(received: Option<MessageKind>, waits: bool, quit_now: bool) -> (r: IdleAction)
    ensures
        waits && received is None ==> r == IdleAction::Wait,
        !(waits && received is None) ==> r == (if quit_now || received == Some(MessageKind::Quit) {
            IdleAction::Leave
        } else if received is Some {
            IdleAction::Work
        } else {
            IdleAction::Deactivate
        }),
{
    match received {
        None => {
            if waits {
                IdleAction::Wait
            } else if quit_now {
                IdleAction::Leave
            } else {
                IdleAction::Deactivate
            }
        },
        Some(m) => {
            if quit_now || m == MessageKind::Quit {
                IdleAction::Leave
            } else {
                IdleAction::Work
            }
        },
    }
}

/// What a thread does next once it counts as idle. Where no other is at work, none will find
/// anything to do any more.
pub fn deactivated_step(active: usize) -> (r: IdleAction)
    ensures
        r == (if active == 0 {
            IdleAction::Leave
        } else {
            IdleAction::Wait
        }),
{
    if active == 0 {
        IdleAction::Leave
    } else {
        IdleAction::Wait
    }
}

/// The threads that a thread takes work from, in the order in which it asks them: from the
/// one after it around to the one before it.
pub open spec fn asked_threads(index: int, count: int) -> Seq<int> {
    Seq::new(
        (count - 1) as nat,
        |i: int|
            if index + 1 + i < count {
                index + 1 + i
            } else {
                index + 1 + i - count
            },
    )
}

/// The threads that a thread takes work from, in the order in which it asks them.
pub fn steal_order(index: usize, count: usize) -> (r: Vec<usize>)
    requires
        index < count,
    ensures
        r@.len() == asked_threads(index as int, count as int).len(),
        forall|i: int|
            0 <= i < r@.len() ==> #[trigger] r@[i] == asked_threads(index as int, count as int)[i],
{
    let mut out: Vec<usize> = Vec::new();
    let ghost want = asked_threads(index as int, count as int);
    let mut k: usize = index + 1;
    while k < count
        invariant
            index < k <= count,
            want == asked_threads(index as int, count as int),
            out@.len() == k - index - 1,
            forall|i: int| 0 <= i < out@.len() ==> #[trigger] out@[i] == want[i],
        decreases count - k,
    {
        out.push(k);
        k += 1;
    }
    let mut j: usize = 0;
    while j < index
        invariant
            j <= index < count,
            want == asked_threads(index as int, count as int),
            out@.len() == count - index - 1 + j,
            forall|i: int| 0 <= i < out@.len() ==> #[trigger] out@[i] == want[i],
        decreases index - j,
    {
        out.push(j);
        j += 1;
    }
    out
}

/// A thread asks every other thread, and not itself.
pub proof fn law_every_other_thread_is_asked(index: int, count: int, other: int)
    requires
        0 <= index < count,
        0 <= other < count,
    ensures
        asked_threads(index, count).contains(other) <==> other != index,
{
    let all = asked_threads(index, count);
    if other > index {
        assert(all[other - index - 1] == other);
    } else if other < index {
        assert(all[other - index - 1 + count] == other);
    } else if all.contains(other) {
        let i = choose|i: int| 0 <= i < all.len() && all[i] == other;
    }
}

/// The thread whose stack the message `i` of `n` is put on. The last message comes first, and
/// the stacks take turns.
pub fn first_stack(i: usize, n: usize, threads: usize) -> (r: usize)
    requires
        i < n,
        threads > 0,
    ensures
        r == (n - 1 - i) % (threads as int),
        r < threads,
{
    (n - 1 - i) % threads
}

/// The first of the answers from `i` on that is not a plain no.
pub open spec fn first_known(same: Seq<Option<bool>>, i: int) -> int
    decreases same.len() - i,
{
    if i >= same.len() || same[i] != Some(false) {
        i
    } else {
        first_known(same, i + 1)
    }
}

/// Whether following a symbolic link leads into a loop: `same` says of each directory that
/// the link is below, from the inside out, whether the link points to it. `None` after an
/// error, which is then `failed`.
pub fn check_symlink_loop(
    ancestors: &Vec<Vec<u8>>,
    same: &Vec<Option<bool>>,
    child: &[u8],
    depth: usize,
    failed: Error,
) -> (r: Result<(), Error>)
    requires
        ancestors@.len() == same@.len(),
    ensures
        ({
            let k = first_known(same@, 0);
            if k >= same@.len() {
                r is Ok
            } else if same@[k] is None {
                r matches Err(Error::WithDepth { depth: d, err }) && d == depth && (
                *err matches Error::WithPath { path, err: e } && path@ == child@ && *e == failed)
            } else {
                r matches Err(Error::WithDepth { depth: d, err }) && d == depth && (
                *err matches Error::Loop { ancestor, child: c } && ancestor@ == ancestors@[k]@
                    && c@ == child@)
            }
        }),
{
    let mut i: usize = 0;
    while i < same.len()
        invariant
            i <= same@.len() == ancestors@.len(),
            first_known(same@, 0) == first_known(same@, i as int),
        decreases same@.len() - i,
    {
        match same[i] {
            None => {
                return Err(failed.with_path(child).with_depth(depth));
            },
            Some(is) => {
                if is {
                    let found = Error::Loop {
                        ancestor: to_vec(ancestors[i].as_slice()),
                        child: to_vec(child),
                    };
                    return Err(found.with_depth(depth));
                }
            },
        }
        i += 1;
    }
    Ok(())
}

} // verus!
