//! The lines of a file of attributes.
use crate::ascii::alphanumeric;
use crate::bytes::{begins, find_byte, find_byteset, from, lit, pos_of, pos_of_any, push_all, strip_prefix, to_vec};
use crate::git::bom::{bom_len, bom_length};
use crate::git::error::GitError;
use crate::git::pattern::{is_pattern, pattern_mode, pattern_text, wildcard_pos, Pattern, PatternMode};
use crate::git::quote::{undo, unquoted};
use vstd::prelude::*;

verus! {

/// How an attribute is set.
#[derive(Debug)]
pub enum StackState {
    On,
    Off,
    Value(Vec<u8>),
    Unspecified,
}

/// What a `StackState` stands for.
pub enum StateView {
    On,
    Off,
    Value(Seq<u8>),
    Unspecified,
}

impl View for StackState {
    type V = StateView;

    open spec fn view(&self) -> StateView {
        match *self {
            StackState::On => StateView::On,
            StackState::Off => StateView::Off,
            StackState::Value(v) => StateView::Value(v@),
            StackState::Unspecified => StateView::Unspecified,
        }
    }
}

impl StackState {
    /// The same state.
    pub fn copy(&self) -> (r: StackState)
        ensures
            r@ == self@,
    {
        match self {
            StackState::On => StackState::On,
            StackState::Off => StackState::Off,
            StackState::Value(v) => StackState::Value(to_vec(v.as_slice())),
            StackState::Unspecified => StackState::Unspecified,
        }
    }

    /// Whether the attribute is set, be it with a value or without.
    pub fn is_set(&self) -> (r: bool)
        ensures
            r == (self@ is On || self@ is Value),
    {
        match self {
            StackState::On | StackState::Value(_) => true,
            _ => false,
        }
    }
}

/// An attribute with its state.
#[derive(Debug)]
pub struct Assignment {
    pub name: Vec<u8>,
    pub state: StackState,
}

/// What an `Assignment` stands for.
pub struct AssignmentView {
    pub name: Seq<u8>,
    pub state: StateView,
}

impl View for Assignment {
    type V = AssignmentView;

    open spec fn view(&self) -> AssignmentView {
        AssignmentView { name: self.name@, state: self.state@ }
    }
}

/// The assignments that stand for those of `v`.
pub open spec fn assignments_view(v: Seq<Assignment>) -> Seq<AssignmentView> {
    Seq::new(v.len(), |i: int| v[i]@)
}

/// `s` can name an attribute.
pub open spec fn valid_attribute(s: Seq<u8>) -> bool {
    (s.len() > 0 ==> s[0] != '-' as u8) && forall|i: int|
        0 <= i < s.len() ==> name_byte(#[trigger] s[i])
}

/// `b` can stand in the name of an attribute.
pub open spec fn name_byte(b: u8) -> bool {
    b == '-' as u8 || b == '.' as u8 || b == '_' as u8 || alphanumeric(b)
}

/// Whether `attr` can name an attribute.
pub fn check_attr(attr: &[u8]) -> (r: Result<(), GitError>)
    ensures
        r is Ok <==> valid_attribute(attr@),
        r matches Err(e) ==> e is Gen,
{
    if attr.len() > 0 && attr[0] == '-' as u8 {
        return Err(GitError::Gen);
    }
    let mut i: usize = 0;
    while i < attr.len()
        invariant
            i <= attr@.len(),
            forall|j: int| 0 <= j < i ==> name_byte(#[trigger] attr@[j]),
        decreases attr.len() - i,
    {
        let b = attr[i];
        if !(b == '-' as u8 || b == '.' as u8 || b == '_' as u8 || (0x30 <= b && b <= 0x39) || (0x41 <= b
            && b <= 0x5a) || (0x61 <= b && b <= 0x7a)) {
            return Err(GitError::Gen);
        }
        i += 1;
    }
    Ok(())
}

/// The attribute that the word `s` sets, before its name was looked at.
pub open spec fn word_assignment(s: Seq<u8>) -> AssignmentView {
    let p = pos_of(s, '=' as u8, 0);
    let head = s.subrange(0, p);
    if head.len() > 0 && head[0] == '-' as u8 {
        AssignmentView { name: from(head, 1), state: StateView::Off }
    } else if head.len() > 0 && head[0] == '!' as u8 {
        AssignmentView { name: from(head, 1), state: StateView::Unspecified }
    } else if p < s.len() {
        AssignmentView { name: head, state: StateView::Value(from(s, p + 1)) }
    } else {
        AssignmentView { name: head, state: StateView::On }
    }
}

/// Reads one word that sets an attribute.
pub fn parse_attr(attr: &[u8]) -> (r: Result<Assignment, GitError>)
    ensures
        r is Ok <==> valid_attribute(word_assignment(attr@).name),
        r matches Ok(a) ==> a@ == word_assignment(attr@),
        r matches Err(e) ==> e is Gen,
{
    let n = attr.len();
    proof {
        crate::bytes::lemma_pos_of(attr@, '=' as u8, 0);
    }
    let p = match find_byte(attr, '=' as u8) {
        Some(p) => p,
        None => n,
    };
    let head = &attr[0..p];
    let (name, state): (&[u8], StackState) = if p > 0 && head[0] == '-' as u8 {
        (&head[1..p], StackState::Off)
    } else if p > 0 && head[0] == '!' as u8 {
        (&head[1..p], StackState::Unspecified)
    } else if p < n {
        (head, StackState::Value(to_vec(&attr[p + 1..n])))
    } else {
        (head, StackState::On)
    };
    match check_attr(name) {
        Err(e) => Err(e),
        Ok(()) => Ok(Assignment { name: to_vec(name), state }),
    }
}

/// The word that sets the attribute `a`.
pub open spec fn word_of(a: AssignmentView) -> Seq<u8> {
    match a.state {
        StateView::On => a.name,
        StateView::Off => seq!['-' as u8] + a.name,
        StateView::Value(v) => a.name + seq!['=' as u8] + v,
        StateView::Unspecified => seq!['!' as u8] + a.name,
    }
}

impl Assignment {
    /// The same assignment.
    pub fn copy(&self) -> (r: Assignment)
        ensures
            r@ == self@,
    {
        Assignment { name: to_vec(self.name.as_slice()), state: self.state.copy() }
    }

    /// The word that sets this attribute.
    pub fn to_word(&self) -> (r: Vec<u8>)
        ensures
            r@ == word_of(self@),
    {
        let mut out: Vec<u8> = Vec::new();
        match &self.state {
            StackState::On => {
                push_all(&mut out, self.name.as_slice());
            },
            StackState::Off => {
                out.push('-' as u8);
                push_all(&mut out, self.name.as_slice());
            },
            StackState::Value(v) => {
                push_all(&mut out, self.name.as_slice());
                out.push('=' as u8);
                push_all(&mut out, v.as_slice());
            },
            StackState::Unspecified => {
                out.push('!' as u8);
                push_all(&mut out, self.name.as_slice());
            },
        }
        assert(out@ =~= word_of(self@));
        out
    }

    /// The word that sets this attribute, as text.
    pub fn to_text(&self) -> (r: String)
        ensures
            r@ == crate::text::lossy_text(word_of(self@)),
    {
        crate::text::lossy(self.to_word().as_slice())
    }
}

/// The word of an attribute with a valid name is read back as that attribute.
pub proof fn law_word_read_back(a: AssignmentView)
    requires
        valid_attribute(a.name),
    ensures
        word_assignment(word_of(a)) == a,
{
    let w = word_of(a);
    let head: int = match a.state {
        StateView::On => a.name.len() as int,
        StateView::Off => (a.name.len() + 1) as int,
        StateView::Value(_) => a.name.len() as int,
        StateView::Unspecified => (a.name.len() + 1) as int,
    };
    assert forall|j: int| 0 <= j < head implies w[j] != '=' as u8 by {
        match a.state {
            StateView::On => {
                assert(name_byte(a.name[j]));
            },
            StateView::Value(_) => {
                assert(w[j] == a.name[j]);
                assert(name_byte(a.name[j]));
            },
            _ => {
                if j > 0 {
                    assert(w[j] == a.name[j - 1]);
                    assert(name_byte(a.name[j - 1]));
                }
            },
        }
    }
    if let StateView::Value(_) = a.state {
        assert(w[head] == '=' as u8);
    }
    crate::bytes::lemma_pos_of_is(w, '=' as u8, 0, head);
    if a.name.len() > 0 {
        assert(name_byte(a.name[0]));
    }
    match a.state {
        StateView::On => {
            assert(w.subrange(0, head) =~= a.name);
        },
        StateView::Value(v) => {
            assert(w.subrange(0, head) =~= a.name);
            assert(from(w, head + 1) =~= v);
            assert(a.name.len() > 0 ==> w[0] == a.name[0]);
        },
        _ => {
            assert(from(w.subrange(0, head), 1) =~= a.name);
        },
    }
}

/// The words of `s`, with what is taken for white space left out.
pub uninterp spec fn fields_of(s: Seq<u8>) -> Seq<Seq<u8>>;

/// The slices that stand for those of `v`.
pub open spec fn slices_view<'a>(v: Seq<&'a [u8]>) -> Seq<Seq<u8>> {
    Seq::new(v.len(), |i: int| v[i]@)
}

/// `bstr::ByteSlice::fields` splits bytes at white space as Unicode defines it. Which characters
/// those are is not said here.
#[verifier::external_body]
pub(crate) fn fields<'a>(s: &'a [u8]) -> (r: Vec<&'a [u8]>)
    ensures
        slices_view(r@) == fields_of(s@),
{
    bstr::ByteSlice::fields(s).collect()
}

/// What the words of a line set, from the word `i` on and up to the first that is empty; `None` where one
/// cannot be read.
pub open spec fn assignments_from(words: Seq<Seq<u8>>, i: int) -> Option<Seq<AssignmentView>>
    decreases words.len() - i,
{
    if i >= words.len() || i < 0 || words[i].len() == 0 {
        Some(Seq::empty())
    } else if !valid_attribute(word_assignment(words[i]).name) {
        None
    } else {
        match assignments_from(words, i + 1) {
            Some(rest) => Some(seq![word_assignment(words[i])] + rest),
            None => None,
        }
    }
}

/// What the words of a line set.
pub fn assignments_of(words: &Vec<&[u8]>) -> (r: Option<Vec<Assignment>>)
    ensures
        r is Some <==> assignments_from(slices_view(words@), 0) is Some,
        r matches Some(v) ==> assignments_from(slices_view(words@), 0) == Some(assignments_view(v@)),
{
    let ghost all = slices_view(words@);
    let mut out: Vec<Assignment> = Vec::new();
    let mut i: usize = 0;
    proof {
        if let Some(rest) = assignments_from(all, 0) {
            assert(assignments_view(out@) + rest =~= rest);
        }
    }
    while i < words.len() && words[i].len() > 0
        invariant
            i <= words@.len(),
            all == slices_view(words@),
            assignments_from(all, 0) == (match assignments_from(all, i as int) {
                Some(rest) => Some(assignments_view(out@) + rest),
                None => None,
            }),
        decreases words.len() - i,
    {
        let ghost before = assignments_view(out@);
        let word = words[i];
        assert(word@ == all[i as int]);
        match parse_attr(word) {
            Err(_) => {
                return None;
            },
            Ok(a) => {
                out.push(a);
                proof {
                    assert(assignments_view(out@) =~= before.push(a@));
                    if let Some(rest) = assignments_from(all, i + 1) {
                        assert(before + (seq![a@] + rest) =~= assignments_view(out@) + rest);
                    }
                }
            },
        }
        i += 1;
    }
    assert(i < words@.len() ==> words@[i as int]@ == all[i as int]);
    assert(assignments_view(out@) + Seq::<AssignmentView>::empty() =~= assignments_view(out@));
    Some(out)
}

/// The bytes between words.
pub open spec fn blanks() -> Seq<u8> {
    seq![' ' as u8, 0x09, 0x0d]
}

/// The first position at or after `i` that holds no blank.
pub open spec fn past_blanks(s: Seq<u8>, i: int) -> int
    decreases s.len() - i,
{
    if 0 <= i < s.len() && blanks().contains(s[i]) {
        past_blanks(s, i + 1)
    } else {
        i
    }
}

/// The line without the blanks that it begins with; one of nothing but blanks stays.
pub open spec fn skipped_blanks(s: Seq<u8>) -> Seq<u8> {
    if past_blanks(s, 0) < s.len() {
        from(s, past_blanks(s, 0))
    } else {
        s
    }
}

/// What a line of the file is.
pub enum LineView {
    /// It says nothing.
    Skip,
    /// It cannot be read.
    Bad,
    /// It names the macro, and then says what the macro sets.
    Macro(Seq<u8>, Seq<u8>),
    /// It has a pattern, and then says what is set for the paths that match.
    Glob(Seq<u8>, Seq<u8>),
}

/// What begins a line, without quotes, with what follows it.
pub open spec fn split_line(line: Seq<u8>) -> Option<(Seq<u8>, Seq<u8>)> {
    if line.len() > 0 && line[0] == '"' as u8 {
        match unquoted(line) {
            Some((head, consumed)) => Some((head, from(line, consumed))),
            None => None,
        }
    } else {
        let p = pos_of_any(line, blanks(), 0);
        Some((line.subrange(0, p), from(line, p)))
    }
}

/// What a line is that begins with no blank.
pub open spec fn line_of(line: Seq<u8>) -> LineView {
    if line.len() == 0 {
        LineView::Skip
    } else {
        match split_line(line) {
            None => LineView::Bad,
            Some((head, attrs)) => if begins(head, lit("[attr]")) {
                let name = from(head, lit("[attr]").len() as int);
                if valid_attribute(name) {
                    LineView::Macro(name, attrs)
                } else {
                    LineView::Bad
                }
            } else if !is_pattern(head, true) {
                LineView::Skip
            } else if pattern_mode(head, true).negative {
                LineView::Bad
            } else {
                LineView::Glob(head, attrs)
            },
        }
    }
}

/// What a line applies to.
#[derive(Debug)]
pub enum Kind {
    Pattern(Pattern),
    Macro(Vec<u8>),
}

/// What begins a line, without quotes, with what follows it.
fn head_and_attrs<'a>(line: &'a [u8]) -> (r: Result<(Vec<u8>, &'a [u8]), GitError>)
    ensures
        r is Ok <==> split_line(line@) is Some,
        r matches Ok(x) ==> split_line(line@) == Some((x.0@, x.1@)),
        r matches Err(e) ==> e is Gen,
{
    let n = line.len();
    if n > 0 && line[0] == '"' as u8 {
        match undo(line) {
            Err(e) => Err(e),
            Ok((head, consumed)) => {
                proof {
                    crate::git::attributes::line::lemma_unquoted_end(line@);
                }
                Ok((head, &line[consumed..n]))
            },
        }
    } else {
        let set: [u8; 3] = [' ' as u8, 0x09, 0x0d];
        assert(set@ =~= blanks());
        proof {
            crate::bytes::lemma_pos_of_any(line@, blanks(), 0);
        }
        let p = match find_byteset(line, &set) {
            Some(p) => p,
            None => n,
        };
        Ok((to_vec(&line[0..p]), &line[p..n]))
    }
}

/// Quoted text ends within the line.
pub proof fn lemma_unquoted_end(s: Seq<u8>)
    ensures
        unquoted(s) matches Some((_, end)) ==> 0 <= end <= s.len(),
{
    if s.len() >= 2 {
        lemma_unquoted_from_end(s, 1);
    }
}

proof fn lemma_unquoted_from_end(s: Seq<u8>, i: int)
    requires
        0 <= i <= s.len(),
    ensures
        crate::git::quote::unquoted_from(s, i) matches Some((_, end)) ==> i <= end <= s.len(),
    decreases s.len() - i,
{
    let p = pos_of_any(s, crate::git::quote::special(), i);
    crate::bytes::lemma_pos_of_any(s, crate::git::quote::special(), i);
    if p < s.len() && s[p] != '"' as u8 {
        if let Some((b, next)) = crate::git::quote::escape_at(s, p) {
            if next > i {
                lemma_unquoted_from_end(s, next);
            }
        }
    }
}

/// Reads a line that begins with no blank. `None` where it says nothing.
pub fn parse_line<'a>(line: &'a [u8]) -> (r: Option<Result<(Kind, &'a [u8]), GitError>>)
    ensures
        match line_of(line@) {
            LineView::Skip => r is None,
            LineView::Bad => r matches Some(Err(e)) && e is Gen,
            LineView::Macro(name, attrs) => r matches Some(Ok((Kind::Macro(n), a))) && n@ == name && a@
                == attrs,
            LineView::Glob(head, attrs) => {
                &&& r matches Some(Ok((Kind::Pattern(p), a)))
                &&& p.wf() && p.text@ == pattern_text(head, true) && p.mode == pattern_mode(head, true)
                &&& a@ == attrs
            },
        },
{
    if line.len() == 0 {
        return None;
    }
    let (head, attrs) = match head_and_attrs(line) {
        Err(e) => {
            return Some(Err(e));
        },
        Ok(x) => x,
    };
    match strip_prefix(head.as_slice(), "[attr]".as_bytes()) {
        Some(name) => match check_attr(name) {
            Err(e) => Some(Err(e)),
            Ok(()) => Some(Ok((Kind::Macro(to_vec(name)), attrs))),
        },
        None => match Pattern::from_bytes(head.as_slice()) {
            None => None,
            Some(p) => if p.mode.negative {
                Some(Err(GitError::Gen))
            } else {
                Some(Ok((Kind::Pattern(p), attrs)))
            },
        },
    }
}

/// Whether all that a mode can say holds: no pattern is like that, so it marks macros.
pub open spec fn macro_mode() -> PatternMode {
    PatternMode {
        no_sub_dir: true,
        ends_with: true,
        must_be_dir: true,
        negative: true,
        absolute: true,
    }
}

/// An attribute that a line sets, with the number of the attribute.
#[derive(Debug)]
pub struct TrackedAssignment {
    pub id: usize,
    pub inner: Assignment,
}

/// One line of the file.
#[derive(Debug)]
pub struct Mapping {
    pub pattern: Pattern,
    /// The line says what a macro sets; the pattern holds the macro's name.
    pub is_macro: bool,
    /// The number of the macro.
    pub macro_id: usize,
    pub assignments: Vec<TrackedAssignment>,
    pub sequence_number: usize,
}

/// Lines of macros, and no others, have the mode of macros.
pub open spec fn marked(m: Mapping) -> bool {
    (m.is_macro <==> m.pattern.mode == macro_mode()) && (!m.is_macro ==> m.pattern.wf())
}

/// What a `Mapping` stands for, without the numbers of attributes.
pub struct MappingView {
    pub text: Seq<u8>,
    pub mode: PatternMode,
    pub wildcard: Option<usize>,
    pub is_macro: bool,
    pub assignments: Seq<AssignmentView>,
    pub sequence_number: int,
}

/// The assignments of `v` without their numbers.
pub open spec fn inner_view(v: Seq<TrackedAssignment>) -> Seq<AssignmentView> {
    Seq::new(v.len(), |i: int| v[i].inner@)
}

impl View for Mapping {
    type V = MappingView;

    open spec fn view(&self) -> MappingView {
        MappingView {
            text: self.pattern.text@,
            mode: self.pattern.mode,
            wildcard: self.pattern.first_wildcard_pos,
            is_macro: self.is_macro,
            assignments: inner_view(self.assignments@),
            sequence_number: self.sequence_number as int,
        }
    }
}

/// The lines that stand for those of `v`.
pub open spec fn mappings_view(v: Seq<Mapping>) -> Seq<MappingView> {
    Seq::new(v.len(), |i: int| v[i]@)
}

/// What the line `line`, the `number`-th of its file, gives.
pub open spec fn mapping_of(line: Seq<u8>, number: int) -> Option<MappingView> {
    let rest = skipped_blanks(line);
    if rest.len() > 0 && rest[0] == '#' as u8 {
        None
    } else {
        match line_of(rest) {
            LineView::Skip | LineView::Bad => None,
            LineView::Macro(name, attrs) => match assignments_from(fields_of(attrs), 0) {
                None => None,
                Some(assignments) => Some(
                    MappingView {
                        text: name,
                        mode: macro_mode(),
                        wildcard: None,
                        is_macro: true,
                        assignments,
                        sequence_number: number,
                    },
                ),
            },
            LineView::Glob(head, attrs) => match assignments_from(fields_of(attrs), 0) {
                None => None,
                Some(assignments) => Some(
                    MappingView {
                        text: pattern_text(head, true),
                        mode: pattern_mode(head, true),
                        wildcard: wildcard_pos(pattern_text(head, true)),
                        is_macro: false,
                        assignments,
                        sequence_number: number,
                    },
                ),
            },
        }
    }
}

/// The end of the line at `i` without what ends it.
pub open spec fn content_end(s: Seq<u8>, i: int) -> int {
    let p = pos_of(s, 0x0a, i);
    if p < s.len() && p > i && s[p - 1] == 0x0d {
        p - 1
    } else {
        p
    }
}

/// What the lines from position `i` on give, of which `number` came before.
pub open spec fn mappings_from(s: Seq<u8>, i: int, number: int) -> Seq<MappingView>
    decreases s.len() + 1 - i,
{
    let p = pos_of(s, 0x0a, i);
    if i >= s.len() || i < 0 || p < i || p > s.len() {
        Seq::empty()
    } else {
        let rest = mappings_from(s, p + 1, number + 1);
        match mapping_of(s.subrange(i, content_end(s, i)), number + 1) {
            Some(m) => seq![m] + rest,
            None => rest,
        }
    }
}

/// The line without the blanks that it begins with.
fn skip_blanks<'a>(line: &'a [u8]) -> (r: &'a [u8])
    ensures
        r@ == skipped_blanks(line@),
{
    let n = line.len();
    let mut i: usize = 0;
    while i < n && (line[i] == ' ' as u8 || line[i] == 0x09 || line[i] == 0x0d)
        invariant
            i <= n,
            n == line@.len(),
            past_blanks(line@, 0) == past_blanks(line@, i as int),
        decreases n - i,
    {
        proof {
            let b = line@[i as int];
            assert(blanks()[0] == ' ' as u8 && blanks()[1] == 0x09 && blanks()[2] == 0x0d);
            assert(blanks().contains(b));
        }
        i += 1;
    }
    if i < n {
        assert(!blanks().contains(line@[i as int]));
        &line[i..n]
    } else {
        line
    }
}

/// Gives each assignment a number that stands for none.
fn untracked(v: Vec<Assignment>) -> (r: Vec<TrackedAssignment>)
    ensures
        inner_view(r@) == assignments_view(v@),
{
    let mut out: Vec<TrackedAssignment> = Vec::new();
    for a in it: v
        invariant
            it.seq() == v@,
            inner_view(out@) == assignments_view(v@).take(it.index() as int),
    {
        let ghost before = inner_view(out@);
        out.push(TrackedAssignment { id: usize::MAX, inner: a });
        assert(inner_view(out@) =~= before.push(a@));
        assert(a@ == assignments_view(v@)[it.index() as int]);
        assert(inner_view(out@) =~= assignments_view(v@).take(it.index() + 1));
    }
    assert(assignments_view(v@).take(v@.len() as int) =~= assignments_view(v@));
    out
}

/// Reads one line, the `number`-th of its file.
pub fn mapping(line: &[u8], number: usize) -> (r: Option<Mapping>)
    ensures
        r is Some <==> mapping_of(line@, number as int) is Some,
        r matches Some(m) ==> mapping_of(line@, number as int) == Some(m@) && marked(m),
{
    let rest = skip_blanks(line);
    if rest.len() > 0 && rest[0] == '#' as u8 {
        return None;
    }
    let (kind, attrs) = match parse_line(rest) {
        None => {
            return None;
        },
        Some(Err(_)) => {
            return None;
        },
        Some(Ok(x)) => x,
    };
    let words = fields(attrs);
    match assignments_of(&words) {
        None => None,
        Some(assignments) => {
            let assignments = untracked(assignments);
            match kind {
                Kind::Macro(name) => Some(
                    Mapping {
                        pattern: Pattern {
                            text: name,
                            mode: PatternMode {
                                no_sub_dir: true,
                                ends_with: true,
                                must_be_dir: true,
                                negative: true,
                                absolute: true,
                            },
                            first_wildcard_pos: None,
                        },
                        is_macro: true,
                        macro_id: usize::MAX,
                        assignments,
                        sequence_number: number,
                    },
                ),
                Kind::Pattern(pattern) => Some(
                    Mapping {
                        pattern,
                        is_macro: false,
                        macro_id: usize::MAX,
                        assignments,
                        sequence_number: number,
                    },
                ),
            }
        },
    }
}

/// The line feed that ends the line at `i`, or the end.
fn line_feed(s: &[u8], i: usize) -> (r: usize)
    requires
        i <= s@.len(),
    ensures
        r == pos_of(s@, 0x0a, i as int),
        i <= r <= s@.len(),
        r < s@.len() ==> s@[r as int] == 0x0a,
{
    let n = s.len();
    let rest = &s[i..n];
    let ghost p = pos_of(rest@, 0x0a, 0);
    proof {
        crate::bytes::lemma_pos_of(rest@, 0x0a, 0);
        assert forall|j: int| i <= j < i + p implies s@[j] != 0x0a by {
            assert(rest@[j - i] == s@[j]);
        }
        assert(p < rest@.len() ==> s@[i + p] == rest@[p]);
        crate::bytes::lemma_pos_of_is(s@, 0x0a, i as int, i + p);
    }
    match find_byte(rest, 0x0a) {
        Some(p) => i + p,
        None => n,
    }
}

/// What the lines of a file give. Lines that cannot be read are passed over.
pub fn bytes_to_patterns(bytes: &[u8]) -> (r: Vec<Mapping>)
    ensures
        mappings_view(r@) == mappings_from(from(bytes@, bom_len(bytes@)), 0, 0),
        forall|k: int| 0 <= k < r@.len() ==> marked(#[trigger] r@[k]),
{
    let skip = bom_length(bytes);
    let s = &bytes[skip..bytes.len()];
    let n = s.len();
    let mut out: Vec<Mapping> = Vec::new();
    let mut i: usize = 0;
    let mut number: usize = 0;
    assert(mappings_view(out@) + mappings_from(s@, 0, 0) =~= mappings_from(s@, 0, 0));
    while i < n
        invariant
            i <= n,
            n == s@.len(),
            number <= i,
            mappings_from(s@, 0, 0) == mappings_view(out@) + mappings_from(s@, i as int, number as int),
            forall|k: int| 0 <= k < out@.len() ==> marked(#[trigger] out@[k]),
        decreases n - i,
    {
        let ghost before = mappings_view(out@);
        let p = line_feed(s, i);
        let end = if p < n && p > i && s[p - 1] == 0x0d {
            p - 1
        } else {
            p
        };
        number += 1;
        let ghost rest = mappings_from(s@, p + 1, number as int);
        match mapping(&s[i..end], number) {
            Some(m) => {
                out.push(m);
                proof {
                    assert(mappings_view(out@) =~= before.push(m@));
                    assert(before + (seq![m@] + rest) =~= mappings_view(out@) + rest);
                }
            },
            None => {},
        }
        if p >= n {
            assert(mappings_from(s@, n as int, number as int) =~= Seq::<MappingView>::empty());
            assert(rest =~= Seq::<MappingView>::empty());
            i = n;
        } else {
            i = p + 1;
        }
    }
    assert(mappings_view(out@) + mappings_from(s@, i as int, number as int) =~= mappings_view(out@));
    out
}

} // verus!
