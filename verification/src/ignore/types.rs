//! File types: names for sets of patterns, and which of them are ignored.
use crate::globset::error::{opt_chars, ErrorKindView};
use crate::globset::glob::{GlobBuilder, GlobView};
use crate::globset::parse::{parsed, GlobOptions};
use crate::globset::set::{buildable, some_hit, GlobSet, GlobSetBuilder};
use crate::ignore::error::{Error, Match};
use crate::ignore::paths::{path_file_name, path_name};
use crate::text::{chars_of, char_at, is_letter_or_number, letter_or_number};
use vstd::prelude::*;

verus! {

/// The definition of a file type: its name, and the patterns for its files.
#[derive(Debug)]
pub struct Definition {
    pub name: String,
    pub globs: Vec<String>,
}

pub struct DefinitionView {
    pub name: Seq<char>,
    pub globs: Seq<Seq<char>>,
}

impl View for Definition {
    type V = DefinitionView;

    open spec fn view(&self) -> DefinitionView {
        DefinitionView { name: self.name@, globs: strings_view(self.globs@) }
    }
}

/// The texts of the strings.
pub open spec fn strings_view(v: Seq<String>) -> Seq<Seq<char>> {
    v.map_values(|s: String| s@)
}

pub open spec fn definitions_view(v: Seq<Definition>) -> Seq<DefinitionView> {
    v.map_values(|d: Definition| d@)
}

/// The position of the definition with the given name, or the number of definitions.
pub open spec fn definition_pos(defs: Seq<DefinitionView>, name: Seq<char>, i: int) -> int
    decreases defs.len() - i,
{
    if i >= defs.len() || defs[i].name == name {
        i
    } else {
        definition_pos(defs, name, i + 1)
    }
}

/// The definitions with one pattern more for the file type `name`.
pub open spec fn with_glob(defs: Seq<DefinitionView>, name: Seq<char>, glob: Seq<char>) -> Seq<
    DefinitionView,
> {
    let k = definition_pos(defs, name, 0);
    if k < defs.len() {
        defs.update(k, DefinitionView { name, globs: defs[k].globs.push(glob) })
    } else {
        defs.push(DefinitionView { name, globs: seq![glob] })
    }
}

/// The name can be that of a file type.
pub open spec fn valid_type_name(name: Seq<char>) -> bool {
    name != "all"@ && forall|i: int| 0 <= i < name.len() ==> letter_or_number(#[trigger] name[i])
}

/// The names of the definitions.
pub open spec fn names(defs: Seq<DefinitionView>) -> Seq<Seq<char>> {
    defs.map_values(|d: DefinitionView| d.name)
}

/// The options for the patterns of file types.
pub open spec fn type_options() -> GlobOptions {
    GlobOptions {
        case_insensitive: false,
        literal_separator: true,
        backslash_escape: true,
        empty_alternates: false,
        allow_unclosed_class: false,
    }
}

/// What keeps the patterns of file types from being read.
pub enum TypeFault {
    /// The file type is not defined.
    Unknown(Seq<char>),
    /// The pattern cannot be read.
    Pattern(Seq<char>, ErrorKindView),
}

/// The patterns of a file type from `i` on.
pub open spec fn globs_of(globs: Seq<Seq<char>>, i: int) -> Result<Seq<GlobView>, TypeFault>
    decreases globs.len() - i,
{
    if i >= globs.len() {
        Ok(seq![])
    } else {
        match parsed(globs[i], type_options()) {
            Err(e) => Err(TypeFault::Pattern(globs[i], e)),
            Ok(tokens) => match globs_of(globs, i + 1) {
                Err(f) => Err(f),
                Ok(rest) => Ok(
                    seq![GlobView { glob: globs[i], opts: type_options(), tokens }] + rest,
                ),
            },
        }
    }
}

/// The patterns of the file types that are selected from `i` on.
pub open spec fn selected_globs(
    defs: Seq<DefinitionView>,
    selections: Seq<Seq<char>>,
    i: int,
) -> Result<Seq<GlobView>, TypeFault>
    decreases selections.len() - i,
{
    if i >= selections.len() {
        Ok(seq![])
    } else {
        let k = definition_pos(defs, selections[i], 0);
        if k >= defs.len() {
            Err(TypeFault::Unknown(selections[i]))
        } else {
            match globs_of(defs[k].globs, 0) {
                Err(f) => Err(f),
                Ok(head) => match selected_globs(defs, selections, i + 1) {
                    Err(f) => Err(f),
                    Ok(rest) => Ok(head + rest),
                },
            }
        }
    }
}

/// The error is the one for the fault.
pub open spec fn is_fault(e: Error, f: TypeFault) -> bool {
    match f {
        TypeFault::Unknown(name) => e matches Error::UnrecognizedFileType(n) && n@ == name,
        TypeFault::Pattern(glob, kind) => e matches Error::Glob { glob: g, err } && opt_chars(g)
            == Some(glob) && err@ == kind.text(),
    }
}

/// A builder for file types, and for which of them are ignored.
#[derive(Debug)]
pub struct TypesBuilder {
    types: Vec<Definition>,
    selections: Vec<String>,
}

impl TypesBuilder {
    pub closed spec fn definitions(self) -> Seq<DefinitionView> {
        definitions_view(self.types@)
    }

    /// No file type is defined twice.
    pub open spec fn wf(self) -> bool {
        names(self.definitions()).no_duplicates()
    }

    /// The file types that are ignored.
    pub closed spec fn negated(self) -> Seq<Seq<char>> {
        strings_view(self.selections@)
    }

    /// A builder without file types.
    pub fn new() -> (r: TypesBuilder)
        ensures
            r.wf(),
            r.definitions() == Seq::<DefinitionView>::empty(),
            r.negated() == Seq::<Seq<char>>::empty(),
    {
        let r = TypesBuilder { types: Vec::new(), selections: Vec::new() };
        assert(r.definitions() =~= Seq::<DefinitionView>::empty());
        assert(r.negated() =~= Seq::<Seq<char>>::empty());
        r
    }

    /// The position of the definition with the given name.
    fn find(&self, name: &String) -> (r: usize)
        ensures
            r == definition_pos(self.definitions(), name@, 0),
            r <= self.types@.len(),
    {
        let ghost defs = self.definitions();
        let mut k: usize = 0;
        while k < self.types.len()
            invariant
                k <= self.types@.len(),
                defs == definitions_view(self.types@),
                definition_pos(defs, name@, 0) == definition_pos(defs, name@, k as int),
            decreases self.types@.len() - k,
        {
            assert(defs[k as int] == self.types@[k as int]@);
            if self.types[k].name == *name {
                return k;
            }
            k += 1;
        }
        k
    }

    /// Adds a pattern for the files of the type `name`. The name must not be `all`, and must
    /// be made of letters and numbers.
    pub fn add(&mut self, name: &str, glob: &str) -> (r: Result<(), Error>)
        requires
            old(self).wf(),
        ensures
            final(self).wf(),
            r is Ok <==> valid_type_name(name@),
            r is Ok ==> final(self).definitions() == with_glob(
                old(self).definitions(),
                name@,
                glob@,
            ),
            r matches Err(e) ==> e is InvalidDefinition && final(self).definitions() == old(
                self,
            ).definitions(),
            final(self).negated() == old(self).negated(),
    {
        let ghost before = self.definitions();
        proof {
            law_no_type_is_defined_twice(before, name@, glob@);
        }
        let key = name.to_owned();
        if key == "all".to_owned() {
            return Err(Error::InvalidDefinition);
        }
        let chars = chars_of(name);
        let mut i: usize = 0;
        while i < chars.len()
            invariant
                i <= chars@.len(),
                chars@ == name@,
                old(self).wf(),
                forall|k: int| 0 <= k < i ==> letter_or_number(#[trigger] name@[k]),
            decreases chars@.len() - i,
        {
            if !is_letter_or_number(char_at(&chars, i)) {
                return Err(Error::InvalidDefinition);
            }
            i += 1;
        }
        let k: usize = self.find(&key);
        if k < self.types.len() {
            assert(before[k as int] == self.types@[k as int]@);
            let d = &mut self.types[k];
            d.globs.push(glob.to_owned());
            proof {
                let now = self.definitions();
                lemma_definition_pos(before, name@, 0);
                assert(now[k as int].globs =~= before[k as int].globs.push(glob@));
                assert(now =~= with_glob(before, name@, glob@));
            }
        } else {
            let mut globs: Vec<String> = Vec::new();
            globs.push(glob.to_owned());
            let d = Definition { name: key, globs };
            assert(d@.globs =~= seq![glob@]);
            self.types.push(d);
            assert(self.definitions() =~= with_glob(before, name@, glob@));
        }
        Ok(())
    }

    /// Ignores the files of the type `name`, or of every type that is defined, once each, where
    /// the name is `all`.
    pub fn negate(&mut self, name: &str) -> (r: &mut TypesBuilder)
        requires
            old(self).wf(),
        ensures
            r.wf(),
            r.definitions() == old(self).definitions(),
            r.negated() == (if name@ == "all"@ {
                old(self).negated() + names(old(self).definitions())
            } else {
                old(self).negated().push(name@)
            }),
            *final(self) == *final(r),
    {
        let ghost before = self.negated();
        let ghost defs = self.definitions();
        let key = name.to_owned();
        if key == "all".to_owned() {
            let mut i: usize = 0;
            assert(before + names(defs).take(0) =~= before);
            while i < self.types.len()
                invariant
                    i <= self.types@.len(),
                    defs == definitions_view(self.types@),
                    defs == self.definitions(),
                    self.negated() == before + names(defs).take(i as int),
                decreases self.types@.len() - i,
            {
                let ghost was = self.negated();
                let s = self.types[i].name.clone();
                assert(defs[i as int] == self.types@[i as int]@);
                self.selections.push(s);
                assert(self.negated() =~= was.push(s@));
                assert(names(defs).take(i + 1) =~= names(defs).take(i as int).push(s@));
                assert(before + names(defs).take(i + 1) =~= (before + names(defs).take(
                    i as int,
                )).push(s@));
                i += 1;
            }
            assert(names(defs).take(defs.len() as int) =~= names(defs));
        } else {
            self.selections.push(key);
            assert(self.negated() =~= before.push(name@));
        }
        self
    }

    /// The matcher for the file types that are ignored.
    pub fn build(&self) -> (r: Result<Types, Error>)
        requires
            self.wf(),
        ensures
            match selected_globs(self.definitions(), self.negated(), 0) {
                Err(f) => r matches Err(e) && is_fault(e, f),
                Ok(globs) => match r {
                    Ok(t) => t.wf() && t.patterns() == globs && t.selected()
                        == self.negated().len(),
                    Err(e) => (e matches Error::Glob { glob: None, .. }) && !buildable(globs),
                },
            },
    {
        let ghost defs = self.definitions();
        let ghost sels = self.negated();
        let mut set = GlobSetBuilder::new();
        let ghost goal = selected_globs(defs, sels, 0);
        let mut i: usize = 0;
        while i < self.selections.len()
            invariant
                i <= self.selections@.len(),
                defs == self.definitions(),
                defs == definitions_view(self.types@),
                sels == strings_view(self.selections@),
                goal == selected_globs(defs, sels, 0),
                set.wf(),
                match selected_globs(defs, sels, i as int) {
                    Err(f) => goal == Err::<Seq<GlobView>, TypeFault>(f),
                    Ok(rest) => goal == Ok::<Seq<GlobView>, TypeFault>(set.patterns() + rest),
                },
            decreases self.selections@.len() - i,
        {
            assert(sels[i as int] == self.selections@[i as int]@);
            let k: usize = self.find(&self.selections[i]);
            if k >= self.types.len() {
                return Err(Error::UnrecognizedFileType(self.selections[i].clone()));
            }
            let d = &self.types[k];
            assert(defs[k as int] == d@);
            let ghost globs = defs[k as int].globs;
            let ghost before = set.patterns();
            let ghost head = globs_of(globs, 0);
            let mut j: usize = 0;
            assert(head matches Ok(all) ==> before + all =~= set.patterns() + all);
            while j < d.globs.len()
                invariant
                    j <= d.globs@.len(),
                    globs == strings_view(d.globs@),
                    head == globs_of(globs, 0),
                    set.wf(),
                    match globs_of(globs, j as int) {
                        Err(f) => head == Err::<Seq<GlobView>, TypeFault>(f),
                        Ok(rest) => head matches Ok(all) && before + all == set.patterns() + rest,
                    },
                    goal == selected_globs(defs, sels, 0),
                    head matches Err(f) ==> goal == Err::<Seq<GlobView>, TypeFault>(f),
                    defs == self.definitions(),
                    sels == self.negated(),
                decreases d.globs@.len() - j,
            {
                assert(globs[j as int] == d.globs@[j as int]@);
                let ghost was = set.patterns();
                let mut builder = GlobBuilder::new(d.globs[j].as_str());
                builder.literal_separator(true);
                assert(builder.options() == type_options());
                match builder.build() {
                    Ok(g) => {
                        set.add(g);
                        proof {
                            if globs_of(globs, j + 1) is Ok {
                                let rest = globs_of(globs, j + 1)->Ok_0;
                                assert(was + (seq![g@] + rest) =~= was.push(g@) + rest);
                            }
                        }
                    },
                    Err(e) => {
                        return Err(
                            Error::Glob { glob: Some(d.globs[j].clone()), err: e.kind.to_text() },
                        );
                    },
                }
                j += 1;
            }
            proof {
                let all = head->Ok_0;
                assert(set.patterns() + Seq::<GlobView>::empty() =~= set.patterns());
                if selected_globs(defs, sels, i + 1) is Ok {
                    let rest = selected_globs(defs, sels, i + 1)->Ok_0;
                    assert(before + (all + rest) =~= (before + all) + rest);
                }
            }
            i += 1;
        }
        assert(set.patterns() + Seq::<GlobView>::empty() =~= set.patterns());
        match set.build() {
            Ok(s) => Ok(Types { selections: self.selections.len(), set: s }),
            Err(e) => Err(Error::Glob { glob: None, err: e.to_text() }),
        }
    }
}

proof fn lemma_definition_pos(defs: Seq<DefinitionView>, name: Seq<char>, i: int)
    requires
        0 <= i <= defs.len(),
    ensures
        i <= definition_pos(defs, name, i) <= defs.len(),
        definition_pos(defs, name, i) < defs.len() ==> defs[definition_pos(defs, name, i)].name
            == name,
    decreases defs.len() - i,
{
    if i < defs.len() && defs[i].name != name {
        lemma_definition_pos(defs, name, i + 1);
    }
}

/// However patterns are added, no file type is defined twice.
pub proof fn law_no_type_is_defined_twice(defs: Seq<DefinitionView>, name: Seq<char>, glob: Seq<char>)
    requires
        names(defs).no_duplicates(),
    ensures
        names(with_glob(defs, name, glob)).no_duplicates(),
{
    let k = definition_pos(defs, name, 0);
    let now = with_glob(defs, name, glob);
    lemma_definition_pos(defs, name, 0);
    if k < defs.len() {
        assert(names(now) =~= names(defs));
    } else {
        assert(names(now) =~= names(defs).push(name));
        assert forall|i: int| 0 <= i < defs.len() implies #[trigger] names(defs)[i] != name by {
            lemma_not_before(defs, name, 0, i);
        }
    }
}

proof fn lemma_not_before(defs: Seq<DefinitionView>, name: Seq<char>, i: int, j: int)
    requires
        0 <= i <= j < definition_pos(defs, name, i),
        j < defs.len(),
    ensures
        defs[j].name != name,
    decreases defs.len() - i,
{
    if i < j {
        lemma_not_before(defs, name, i + 1, j);
    }
}

/// A pattern that was added for a file type is one of the type's patterns.
pub proof fn law_added_glob_is_defined(
    defs: Seq<DefinitionView>,
    name: Seq<char>,
    glob: Seq<char>,
)
    ensures
        ({
            let now = with_glob(defs, name, glob);
            let k = definition_pos(now, name, 0);
            k < now.len() && now[k].name == name && now[k].globs.last() == glob
        }),
{
    let now = with_glob(defs, name, glob);
    let k = definition_pos(defs, name, 0);
    lemma_definition_pos(defs, name, 0);
    lemma_definition_pos_kept(defs, now, name, 0);
}

proof fn lemma_definition_pos_kept(
    a: Seq<DefinitionView>,
    b: Seq<DefinitionView>,
    name: Seq<char>,
    i: int,
)
    requires
        0 <= i <= a.len(),
        definition_pos(a, name, i) < b.len(),
        b[definition_pos(a, name, i)].name == name,
        forall|j: int|
            i <= j < definition_pos(a, name, i) ==> (#[trigger] b[j]).name == a[j].name,
    ensures
        definition_pos(b, name, i) == definition_pos(a, name, i),
    decreases a.len() - i,
{
    lemma_definition_pos(a, name, i);
    if i < a.len() && a[i].name != name {
        lemma_definition_pos(a, name, i + 1);
        assert(b[i].name == a[i].name);
        lemma_definition_pos_kept(a, b, name, i + 1);
    }
}

/// The file types that are ignored.
pub struct Types {
    selections: usize,
    set: GlobSet,
}

impl Types {
    pub closed spec fn wf(self) -> bool {
        self.set.wf()
    }

    /// The patterns for the files that are ignored.
    pub closed spec fn patterns(self) -> Seq<GlobView> {
        self.set.patterns()
    }

    /// How many selections were made.
    pub closed spec fn selected(self) -> nat {
        self.selections as nat
    }

    /// The path is that of a file of one of the types.
    pub open spec fn ignores(self, path: Seq<u8>, is_dir: bool) -> bool {
        !is_dir && self.patterns().len() > 0 && (path_name(path) matches Some(name) && some_hit(
            self.patterns(),
            name,
        ))
    }

    /// No file types.
    pub fn empty() -> (r: Types)
        ensures
            r.wf(),
            r.patterns() == Seq::<GlobView>::empty(),
            r.selected() == 0,
    {
        Types { selections: 0, set: GlobSet::empty() }
    }

    /// Whether no selection was made.
    pub fn is_empty(&self) -> (r: bool)
        ensures
            r == (self.selected() == 0),
    {
        self.selections == 0
    }

    /// Whether the file at the path is ignored for its type. Directories have no type.
    pub fn matched(&self, path: &[u8], is_dir: bool) -> (r: Match<()>)
        requires
            self.wf(),
        ensures
            r == (if self.ignores(path@, is_dir) {
                Match::Ignore(())
            } else {
                Match::Nothing
            }),
    {
        if is_dir || self.set.is_empty() {
            return Match::Nothing;
        }
        match path_file_name(path) {
            None => Match::Nothing,
            Some(name) => if self.set.is_match(name) {
                Match::Ignore(())
            } else {
                Match::Nothing
            },
        }
    }
}

/// A file type is found by its name: the first of that name, and none where there is none.
pub proof fn law_type_is_found_by_its_name(defs: Seq<DefinitionView>, name: Seq<char>, i: int)
    requires
        0 <= i <= defs.len(),
    ensures
        ({
            let k = definition_pos(defs, name, i);
            &&& i <= k <= defs.len()
            &&& k < defs.len() ==> defs[k].name == name
            &&& forall|j: int| i <= j < k ==> (#[trigger] defs[j]).name != name
        }),
    decreases defs.len() - i,
{
    if i < defs.len() && defs[i].name != name {
        law_type_is_found_by_its_name(defs, name, i + 1);
    }
}

proof fn lemma_globs_of(globs: Seq<Seq<char>>, i: int)
    requires
        0 <= i <= globs.len(),
    ensures
        globs_of(globs, i) matches Ok(v) ==> v.len() == globs.len() - i && forall|j: int|
            0 <= j < v.len() ==> (#[trigger] v[j]).glob == globs[i + j],
    decreases globs.len() - i,
{
    if i < globs.len() {
        lemma_globs_of(globs, i + 1);
        if globs_of(globs, i) is Ok {
            let v = globs_of(globs, i)->Ok_0;
            let rest = globs_of(globs, i + 1)->Ok_0;
            assert forall|j: int| 0 <= j < v.len() implies (#[trigger] v[j]).glob == globs[i + j] by {
                if j > 0 {
                    assert(v[j] == rest[j - 1]);
                }
            }
        }
    }
}

/// The patterns are those of the file types that were chosen: each pattern of each of these
/// is there, and each that is there is one of these.
pub proof fn law_patterns_are_those_of_the_chosen_types(
    defs: Seq<DefinitionView>,
    selections: Seq<Seq<char>>,
    i: int,
)
    requires
        0 <= i <= selections.len(),
        selected_globs(defs, selections, i) is Ok,
    ensures
        ({
            let v = selected_globs(defs, selections, i)->Ok_0;
            &&& forall|s: int, d: int, g: int|
                i <= s < selections.len() && d == definition_pos(defs, #[trigger] selections[s], 0) && 0 <= g
                    < defs[d].globs.len() ==> has_glob(v, #[trigger] defs[d].globs[g])
            &&& forall|j: int| 0 <= j < v.len() ==> is_chosen(defs, selections, i, (#[trigger] v[j]).glob)
        }),
    decreases selections.len() - i,
{
    if i < selections.len() {
        let v = selected_globs(defs, selections, i)->Ok_0;
        let k = definition_pos(defs, selections[i], 0);
        law_type_is_found_by_its_name(defs, selections[i], 0);
        let head = globs_of(defs[k].globs, 0)->Ok_0;
        let rest = selected_globs(defs, selections, i + 1)->Ok_0;
        lemma_globs_of(defs[k].globs, 0);
        law_patterns_are_those_of_the_chosen_types(defs, selections, i + 1);
        assert(v == head + rest);
        assert forall|s: int, d: int, g: int|
            i <= s < selections.len() && d == definition_pos(defs, #[trigger] selections[s], 0) && 0 <= g
                < defs[d].globs.len() implies has_glob(v, #[trigger] defs[d].globs[g]) by {
            let t = defs[d].globs[g];
            if s == i {
                assert(v[g] == head[g]);
                assert(v[g].glob == t);
            } else {
                assert(has_glob(rest, t));
                let j = choose|j: int| 0 <= j < rest.len() && (#[trigger] rest[j]).glob == t;
                assert(v[head.len() + j] == rest[j]);
            }
        }
        assert forall|j: int| 0 <= j < v.len() implies is_chosen(defs, selections, i, (#[trigger] v[j]).glob) by {
            if j < head.len() {
                assert(v[j] == head[j]);
                assert(defs[k].globs[j] == v[j].glob);
                assert(defs[definition_pos(defs, selections[i], 0)].globs.contains(v[j].glob));
            } else {
                assert(v[j] == rest[j - head.len()]);
                assert(is_chosen(defs, selections, i + 1, v[j].glob));
                let s = choose|s: int|
                    i + 1 <= s < selections.len() && defs[definition_pos(
                        defs,
                        #[trigger] selections[s],
                        0,
                    )].globs.contains(v[j].glob);
                assert(defs[definition_pos(defs, selections[s], 0)].globs.contains(v[j].glob));
            }
        }
    }
}

/// One of the patterns is `glob`.
pub open spec fn has_glob(v: Seq<GlobView>, glob: Seq<char>) -> bool {
    exists|j: int| 0 <= j < v.len() && (#[trigger] v[j]).glob == glob
}

/// `glob` is a pattern of one of the types that were chosen.
pub open spec fn is_chosen(defs: Seq<DefinitionView>, selections: Seq<Seq<char>>, i: int, glob: Seq<char>) -> bool {
    exists|s: int|
        i <= s < selections.len() && defs[definition_pos(defs, #[trigger] selections[s], 0)].globs.contains(glob)
}

} // verus!
