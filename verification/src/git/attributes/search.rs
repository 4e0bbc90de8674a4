//! Which attributes a path has.
use crate::bytes::{begins, eq_bytes, from, lit, to_vec};
use crate::git::attributes::line::{bytes_to_patterns, inner_view, macro_mode, marked, mappings_from, mappings_view, Assignment, AssignmentView, Mapping, MappingView, StackState, StateView, TrackedAssignment};
use crate::git::bom::bom_len;
use crate::git::pattern::{path_matches, strip_base_handle_recompute_basename_pos, Case, Pattern, PatternMode};
use crate::git::wildmatch::WildmatchMode;
use vstd::prelude::*;

verus! {

/// All attributes that files name, by their numbers, with what each sets as a macro.
#[derive(Debug)]
pub struct MetadataCollection {
    pub names: Vec<Vec<u8>>,
    pub macro_attributes: Vec<Vec<TrackedAssignment>>,
}

/// What a `MetadataCollection` stands for.
pub struct CollectionView {
    pub names: Seq<Seq<u8>>,
    pub macros: Seq<Seq<AssignmentView>>,
}

impl View for MetadataCollection {
    type V = CollectionView;

    open spec fn view(&self) -> CollectionView {
        CollectionView {
            names: crate::path::paths_view(self.names@),
            macros: Seq::new(self.macro_attributes@.len(), |i: int| inner_view(self.macro_attributes@[i]@)),
        }
    }
}

/// Every assignment has the number of its attribute.
pub open spec fn numbered(names: Seq<Seq<u8>>, v: Seq<TrackedAssignment>) -> bool {
    forall|k: int| 0 <= k < v.len() ==> has_number(names, #[trigger] v[k])
}

/// The assignment has the number of its attribute.
pub open spec fn has_number(names: Seq<Seq<u8>>, a: TrackedAssignment) -> bool {
    a.id < names.len() && names[a.id as int] == a.inner.name@
}

/// `b` begins with `a`.
pub open spec fn extends(a: Seq<Seq<u8>>, b: Seq<Seq<u8>>) -> bool {
    a.len() <= b.len() && forall|i: int| 0 <= i < a.len() ==> #[trigger] b[i] == a[i]
}

/// `c` with the attribute `name`, which gets the next number where it is new.
pub open spec fn named(c: CollectionView, name: Seq<u8>) -> CollectionView {
    if c.names.contains(name) {
        c
    } else {
        CollectionView { names: c.names.push(name), macros: c.macros.push(Seq::empty()) }
    }
}

/// `c` with the attributes that `attrs` set.
pub open spec fn named_all(c: CollectionView, attrs: Seq<AssignmentView>) -> CollectionView
    decreases attrs.len(),
{
    if attrs.len() == 0 {
        c
    } else {
        named(named_all(c, attrs.drop_last()), attrs.last().name)
    }
}

/// `c` with what the line `m` says.
pub open spec fn learned(c: CollectionView, m: MappingView) -> CollectionView {
    if m.is_macro {
        let d = named_all(named(c, m.text), m.assignments);
        CollectionView {
            names: d.names,
            macros: d.macros.update(d.names.index_of(m.text), m.assignments),
        }
    } else {
        named_all(c, m.assignments)
    }
}

/// `c` with what the lines `ms` say.
pub open spec fn learned_all(c: CollectionView, ms: Seq<MappingView>) -> CollectionView
    decreases ms.len(),
{
    if ms.len() == 0 {
        c
    } else {
        learned(learned_all(c, ms.drop_last()), ms.last())
    }
}

impl MetadataCollection {
    /// No attribute has two numbers, and macros know the numbers of what they set.
    pub open spec fn wf(self) -> bool {
        &&& self@.names.no_duplicates()
        &&& self.names@.len() == self.macro_attributes@.len()
        &&& forall|i: int|
            0 <= i < self.macro_attributes@.len() ==> numbered(
                self@.names,
                (#[trigger] self.macro_attributes@[i])@,
            )
    }

    /// No attributes.
    pub fn new() -> (r: MetadataCollection)
        ensures
            r.wf(),
            r@.names == Seq::<Seq<u8>>::empty(),
            r@.macros == Seq::<Seq<AssignmentView>>::empty(),
    {
        let r = MetadataCollection { names: Vec::new(), macro_attributes: Vec::new() };
        assert(r@.names =~= Seq::<Seq<u8>>::empty());
        assert(r@.macros =~= Seq::<Seq<AssignmentView>>::empty());
        r
    }

    /// The number of the attribute `name`, where it has one.
    pub fn number_of(&self, name: &[u8]) -> (r: Option<usize>)
        ensures
            r is Some <==> self@.names.contains(name@),
            r matches Some(i) ==> i < self@.names.len() && self@.names[i as int] == name@,
    {
        let mut i: usize = 0;
        while i < self.names.len()
            invariant
                i <= self.names@.len(),
                forall|j: int| 0 <= j < i ==> #[trigger] self.names@[j]@ != name@,
            decreases self.names.len() - i,
        {
            if eq_bytes(self.names[i].as_slice(), name) {
                assert(self@.names[i as int] == name@);
                return Some(i);
            }
            i += 1;
        }
        proof {
            if self@.names.contains(name@) {
                let k = choose|k: int| 0 <= k < self@.names.len() && self@.names[k] == name@;
                assert(self.names@[k]@ == name@);
            }
        }
        None
    }

    /// The number of the attribute `name`, which it gets where it has none.
    pub fn id_for_attribute(&mut self, name: &[u8]) -> (r: usize)
        requires
            old(self).wf(),
        ensures
            final(self).wf(),
            final(self)@ == named(old(self)@, name@),
            extends(old(self)@.names, final(self)@.names),
            r < final(self)@.names.len(),
            final(self)@.names[r as int] == name@,
    {
        if let Some(i) = self.number_of(name) {
            return i;
        }
        let order = self.names.len();
        self.names.push(to_vec(name));
        self.macro_attributes.push(Vec::new());
        proof {
            assert(self@.names =~= old(self)@.names.push(name@));
            assert(inner_view(self.macro_attributes@[order as int]@) =~= Seq::<AssignmentView>::empty());
            assert(self@.macros =~= old(self)@.macros.push(Seq::empty()));
            assert(self@.names.drop_last() =~= old(self)@.names);
            assert(self.macro_attributes@.drop_last() =~= old(self).macro_attributes@);
            lemma_wf_after(*old(self), *self);
        }
        order
    }

    /// Gives every assignment the number of its attribute.
    pub fn assign_order_to_attributes(&mut self, attributes: &mut Vec<TrackedAssignment>)
        requires
            old(self).wf(),
        ensures
            final(self).wf(),
            final(self)@ == named_all(old(self)@, inner_view(old(attributes)@)),
            extends(old(self)@.names, final(self)@.names),
            inner_view(final(attributes)@) == inner_view(old(attributes)@),
            numbered(final(self)@.names, final(attributes)@),
    {
        let ghost all = inner_view(attributes@);
        let mut i: usize = 0;
        assert(all.take(0) =~= Seq::<AssignmentView>::empty());
        while i < attributes.len()
            invariant
                i <= attributes@.len(),
                all == inner_view(old(attributes)@),
                inner_view(attributes@) == all,
                self.wf(),
                self@ == named_all(old(self)@, all.take(i as int)),
                extends(old(self)@.names, self@.names),
                forall|k: int| 0 <= k < i ==> has_number(self@.names, #[trigger] attributes@[k]),
            decreases attributes.len() - i,
        {
            let ghost before = self@.names;
            let ghost earlier = attributes@;
            let id = self.id_for_attribute(attributes[i].inner.name.as_slice());
            attributes[i].id = id;
            proof {
                assert(inner_view(attributes@) =~= all);
                assert(attributes@[i as int].inner@ == all[i as int]);
                assert(all.take(i + 1).drop_last() =~= all.take(i as int));
                assert(all.take(i + 1).last() == all[i as int]);
                assert forall|k: int| 0 <= k < i + 1 implies has_number(
                    self@.names,
                    #[trigger] attributes@[k],
                ) by {
                    if k < i {
                        assert(attributes@[k] == earlier[k]);
                        assert(has_number(before, earlier[k]));
                        assert(self@.names[earlier[k].id as int] == before[earlier[k].id as int]);
                    }
                }
            }
            i += 1;
        }
        assert(all.take(all.len() as int) =~= all);
    }

    /// Takes note of what the macro `name` sets, and gives its number.
    pub fn id_for_macro(&mut self, name: &[u8], attrs: &mut Vec<TrackedAssignment>) -> (r: usize)
        requires
            old(self).wf(),
        ensures
            final(self).wf(),
            ({
                let d = named_all(named(old(self)@, name@), inner_view(old(attrs)@));
                &&& final(self)@.names == d.names
                &&& final(self)@.macros == d.macros.update(
                    d.names.index_of(name@),
                    inner_view(old(attrs)@),
                )
            }),
            extends(old(self)@.names, final(self)@.names),
            inner_view(final(attrs)@) == inner_view(old(attrs)@),
            numbered(final(self)@.names, final(attrs)@),
            r < final(self)@.names.len(),
            final(self)@.names[r as int] == name@,
    {
        let order = self.id_for_attribute(name);
        let ghost first = self@.names;
        self.assign_order_to_attributes(attrs);
        let ghost d = self@;
        let ghost before = *self;
        assert(d.names[order as int] == first[order as int]);
        let copy = copy_tracked(attrs);
        self.macro_attributes.set(order, copy);
        proof {
            assert(d.names.contains(name@));
            assert(d.names.index_of(name@) == order);
            assert(self@.names =~= d.names);
            assert(self@.macros =~= d.macros.update(order as int, inner_view(old(attrs)@)));
            assert forall|i: int| 0 <= i < self.macro_attributes@.len() implies numbered(
                self@.names,
                (#[trigger] self.macro_attributes@[i])@,
            ) by {
                if i != order {
                    assert(self.macro_attributes@[i] == before.macro_attributes@[i]);
                } else {
                    assert forall|k: int| 0 <= k < copy@.len() implies has_number(
                        self@.names,
                        #[trigger] copy@[k],
                    ) by {
                        assert(has_number(d.names, attrs@[k]));
                        assert(inner_view(copy@)[k] == inner_view(attrs@)[k]);
                    }
                }
            }
        }
        order
    }

    /// Takes note of what the lines say, and gives all their assignments their numbers.
    pub fn update_from_list(&mut self, mappings: &mut Vec<Mapping>)
        requires
            old(self).wf(),
            forall|k: int| 0 <= k < old(mappings)@.len() ==> marked(#[trigger] old(mappings)@[k]),
        ensures
            final(self).wf(),
            final(self)@ == learned_all(old(self)@, mappings_view(old(mappings)@)),
            extends(old(self)@.names, final(self)@.names),
            mappings_view(final(mappings)@) == mappings_view(old(mappings)@),
            forall|k: int|
                0 <= k < final(mappings)@.len() ==> mapping_wf(
                    final(self)@.names,
                    #[trigger] final(mappings)@[k],
                ),
    {
        let ghost all = mappings_view(mappings@);
        let mut i: usize = 0;
        assert(all.take(0) =~= Seq::<MappingView>::empty());
        while i < mappings.len()
            invariant
                i <= mappings@.len(),
                all == mappings_view(old(mappings)@),
                mappings_view(mappings@) == all,
                self.wf(),
                self@ == learned_all(old(self)@, all.take(i as int)),
                extends(old(self)@.names, self@.names),
                forall|k: int| 0 <= k < i ==> mapping_wf(self@.names, #[trigger] mappings@[k]),
                forall|k: int| i <= k < mappings@.len() ==> marked(#[trigger] mappings@[k]),
            decreases mappings.len() - i,
        {
            let ghost before = self@.names;
            let ghost earlier = mappings@;
            self.update_from_mapping(&mut mappings[i]);
            proof {
                assert(mappings_view(mappings@) =~= all);
                assert(all.take(i + 1).drop_last() =~= all.take(i as int));
                assert(all.take(i + 1).last() == earlier[i as int]@);
                assert forall|k: int| 0 <= k < i + 1 implies mapping_wf(
                    self@.names,
                    #[trigger] mappings@[k],
                ) by {
                    if k < i {
                        assert(mappings@[k] == earlier[k]);
                        lemma_mapping_wf_extends(before, self@.names, earlier[k]);
                    }
                }
                assert forall|k: int| i + 1 <= k < mappings@.len() implies marked(
                    #[trigger] mappings@[k],
                ) by {
                    assert(mappings@[k] == earlier[k]);
                }
            }
            i += 1;
        }
        assert(all.take(all.len() as int) =~= all);
    }

    /// Takes note of what one line says.
    fn update_from_mapping(&mut self, m: &mut Mapping)
        requires
            old(self).wf(),
            marked(*old(m)),
        ensures
            final(self).wf(),
            final(self)@ == learned(old(self)@, old(m)@),
            extends(old(self)@.names, final(self)@.names),
            final(m)@ == old(m)@,
            mapping_wf(final(self)@.names, *final(m)),
    {
        if m.is_macro {
            let text = to_vec(m.pattern.text.as_slice());
            let id = self.id_for_macro(text.as_slice(), &mut m.assignments);
            m.macro_id = id;
        } else {
            self.assign_order_to_attributes(&mut m.assignments);
        }
    }
}

/// The line's assignments and its macro have their numbers.
pub open spec fn mapping_wf(names: Seq<Seq<u8>>, m: Mapping) -> bool {
    &&& numbered(names, m.assignments@)
    &&& m.is_macro ==> m.macro_id < names.len() && names[m.macro_id as int] == m.pattern.text@
    &&& marked(m)
}

proof fn lemma_numbered_extends(a: Seq<Seq<u8>>, b: Seq<Seq<u8>>, v: Seq<TrackedAssignment>)
    requires
        extends(a, b),
        numbered(a, v),
    ensures
        numbered(b, v),
{
    assert forall|k: int| 0 <= k < v.len() implies has_number(b, #[trigger] v[k]) by {
        assert(has_number(a, v[k]));
        assert(b[v[k].id as int] == a[v[k].id as int]);
    }
}

proof fn lemma_mapping_wf_extends(a: Seq<Seq<u8>>, b: Seq<Seq<u8>>, m: Mapping)
    requires
        extends(a, b),
        mapping_wf(a, m),
    ensures
        mapping_wf(b, m),
{
    lemma_numbered_extends(a, b, m.assignments@);
    if m.is_macro {
        assert(b[m.macro_id as int] == a[m.macro_id as int]);
    }
}

/// A new attribute without assignments keeps what holds.
proof fn lemma_wf_after(before: MetadataCollection, after: MetadataCollection)
    requires
        before.wf(),
        after@.names.len() == before@.names.len() + 1,
        after@.names.drop_last() == before@.names,
        !before@.names.contains(after@.names.last()),
        after.macro_attributes@.len() == before.macro_attributes@.len() + 1,
        after.macro_attributes@.drop_last() == before.macro_attributes@,
        after.macro_attributes@.last()@.len() == 0,
    ensures
        after.wf(),
        extends(before@.names, after@.names),
{
    assert forall|i: int| 0 <= i < before@.names.len() implies #[trigger] after@.names[i]
        == before@.names[i] by {
        assert(after@.names.drop_last()[i] == after@.names[i]);
    }
    assert forall|i: int| 0 <= i < after.macro_attributes@.len() implies numbered(
        after@.names,
        (#[trigger] after.macro_attributes@[i])@,
    ) by {
        if i < before.macro_attributes@.len() {
            assert(after.macro_attributes@.drop_last()[i] == after.macro_attributes@[i]);
            assert(numbered(before@.names, before.macro_attributes@[i]@));
            lemma_numbered_extends(before@.names, after@.names, before.macro_attributes@[i]@);
        }
    }
    assert forall|i: int, j: int|
        0 <= i < after@.names.len() && 0 <= j < after@.names.len() && i != j implies after@.names[i]
        != after@.names[j] by {
        let n = before@.names.len();
        if i < n && j < n {
            assert(before@.names[i] != before@.names[j]);
        } else if i < n {
            assert(before@.names.contains(after@.names[i]));
        } else {
            assert(before@.names.contains(after@.names[j]));
        }
    }
}

/// The same assignments with the same numbers.
fn copy_tracked(v: &Vec<TrackedAssignment>) -> (r: Vec<TrackedAssignment>)
    ensures
        inner_view(r@) == inner_view(v@),
        tracked_view(r@) == tracked_view(v@),
        r@.len() == v@.len(),
        forall|k: int| 0 <= k < v@.len() ==> (#[trigger] r@[k]).id == v@[k].id,
{
    let mut out: Vec<TrackedAssignment> = Vec::new();
    let mut i: usize = 0;
    while i < v.len()
        invariant
            i <= v@.len(),
            out@.len() == i,
            forall|k: int|
                0 <= k < i ==> (#[trigger] out@[k]).id == v@[k].id && out@[k].inner@ == v@[k].inner@,
        decreases v.len() - i,
    {
        out.push(TrackedAssignment { id: v[i].id, inner: v[i].inner.copy() });
        i += 1;
    }
    assert(inner_view(out@) =~= inner_view(v@));
    assert(tracked_view(out@) =~= tracked_view(v@));
    out
}

/// The assignments of `v` with their numbers.
pub open spec fn tracked_view(v: Seq<TrackedAssignment>) -> Seq<(int, AssignmentView)> {
    Seq::new(v.len(), |i: int| (v[i].id as int, v[i].inner@))
}

/// Where an attribute was set.
pub struct Place {
    pub text: Seq<u8>,
    pub source: Option<Seq<u8>>,
    pub number: int,
}

/// How an attribute was set.
#[derive(Debug)]
pub struct Found {
    pub assignment: Assignment,
    /// The attribute is a macro.
    pub is_macro: bool,
    /// The macro that set it.
    pub via: Option<usize>,
    pub pattern: Pattern,
    pub source: Option<Vec<u8>>,
    pub sequence_number: usize,
}

/// What a `Found` stands for.
pub struct FoundView {
    pub assignment: AssignmentView,
    pub is_macro: bool,
    pub via: Option<usize>,
    pub place: Place,
}

impl View for Found {
    type V = FoundView;

    open spec fn view(&self) -> FoundView {
        FoundView {
            assignment: self.assignment@,
            is_macro: self.is_macro,
            via: self.via,
            place: Place {
                text: self.pattern.text@,
                source: crate::git::config::source::maybe(self.source),
                number: self.sequence_number as int,
            },
        }
    }
}

/// One attribute of a path.
#[derive(Debug)]
pub struct Slot {
    pub found: Option<Found>,
    pub macro_attributes: Vec<TrackedAssignment>,
}

/// What is known of the attributes of a path.
#[derive(Debug)]
pub struct Outcome {
    pub slots: Vec<Slot>,
    /// The attributes that are asked for, with their numbers; none where all are.
    pub selected: Vec<(Vec<u8>, Option<usize>)>,
    /// How many attributes are still to be found.
    pub remaining: usize,
}

/// What an `Outcome` stands for.
pub struct OutcomeView {
    pub found: Seq<Option<FoundView>>,
    pub macros: Seq<Seq<(int, AssignmentView)>>,
    pub selected: Seq<(Seq<u8>, Option<usize>)>,
    pub remaining: int,
}

/// What was found of the attributes.
pub open spec fn found_view(v: Seq<Slot>) -> Seq<Option<FoundView>> {
    Seq::new(
        v.len(),
        |i: int|
            match v[i].found {
                Some(f) => Some(f@),
                None => None,
            },
    )
}

/// What the attributes set as macros.
pub open spec fn macros_view(v: Seq<Slot>) -> Seq<Seq<(int, AssignmentView)>> {
    Seq::new(v.len(), |i: int| tracked_view(v[i].macro_attributes@))
}

/// What is asked for.
pub open spec fn selected_view(v: Seq<(Vec<u8>, Option<usize>)>) -> Seq<(Seq<u8>, Option<usize>)> {
    Seq::new(v.len(), |i: int| (v[i].0@, v[i].1))
}

impl View for Outcome {
    type V = OutcomeView;

    open spec fn view(&self) -> OutcomeView {
        OutcomeView {
            found: found_view(self.slots@),
            macros: macros_view(self.slots@),
            selected: selected_view(self.selected@),
            remaining: self.remaining as int,
        }
    }
}

/// How many attributes were not found.
pub open spec fn missing(found: Seq<Option<FoundView>>) -> nat
    decreases found.len(),
{
    if found.len() == 0 {
        0
    } else {
        missing(found.drop_last()) + (if found.last() is None {
            1nat
        } else {
            0nat
        })
    }
}

/// The attribute `id` is one of those asked for.
pub open spec fn in_selection(selected: Seq<(Seq<u8>, Option<usize>)>, id: int) -> bool
    decreases selected.len(),
{
    selected.len() > 0 && ((selected.last().1 matches Some(i) && i == id) || in_selection(
        selected.drop_last(),
        id,
    ))
}

/// How many of those asked for were not found.
pub open spec fn missing_selected(
    selected: Seq<(Seq<u8>, Option<usize>)>,
    found: Seq<Option<FoundView>>,
) -> nat
    decreases selected.len(),
{
    if selected.len() == 0 {
        0
    } else {
        missing_selected(selected.drop_last(), found) + (if selected.last().1 matches Some(i)
            && found[i as int] is None {
            1nat
        } else {
            0nat
        })
    }
}

/// How many of those asked for are known by name.
pub open spec fn known(selected: Seq<(Seq<u8>, Option<usize>)>) -> nat
    decreases selected.len(),
{
    if selected.len() == 0 {
        0
    } else {
        known(selected.drop_last()) + (if selected.last().1 is Some {
            1nat
        } else {
            0nat
        })
    }
}

/// An assignment that waits to be made, with the macro that it comes from.
pub struct Item {
    pub id: int,
    pub assignment: AssignmentView,
    pub via: Option<usize>,
}

/// Those of `attrs` that were not found yet.
pub open spec fn pending(
    attrs: Seq<(int, AssignmentView)>,
    found: Seq<Option<FoundView>>,
    via: Option<usize>,
) -> Seq<Item>
    decreases attrs.len(),
{
    if attrs.len() == 0 {
        Seq::empty()
    } else {
        let rest = pending(attrs.drop_last(), found, via);
        let (id, assignment) = attrs.last();
        if found[id] is None {
            rest.push(Item { id, assignment, via })
        } else {
            rest
        }
    }
}

impl OutcomeView {
    /// The attribute `id` counts among those that are still to be found.
    pub open spec fn counts(self, id: int) -> bool {
        self.selected.len() == 0 || in_selection(self.selected, id)
    }

    /// How many attributes are still to be found.
    pub open spec fn open_count(self) -> nat {
        if self.selected.len() == 0 {
            missing(self.found)
        } else {
            missing_selected(self.selected, self.found)
        }
    }

    pub open spec fn wf(self) -> bool {
        &&& self.macros.len() == self.found.len()
        &&& self.remaining >= self.open_count()
        &&& forall|i: int| 0 <= i < self.macros.len() ==> in_range(#[trigger] self.macros[i], self.found.len())
        &&& forall|k: int|
            0 <= k < self.selected.len() ==> ((#[trigger] self.selected[k]).1 matches Some(i) ==> i
                < self.found.len())
    }

    /// The attribute of `item` is found at `place`.
    pub open spec fn with_item(self, item: Item, place: Place) -> OutcomeView {
        OutcomeView {
            found: self.found.update(
                item.id,
                Some(
                    FoundView {
                        assignment: item.assignment,
                        is_macro: self.macros[item.id].len() > 0,
                        via: item.via,
                        place,
                    },
                ),
            ),
            remaining: if self.counts(item.id) {
                self.remaining - 1
            } else {
                self.remaining
            },
            ..self
        }
    }
}

/// All numbers are below `n`.
pub open spec fn in_range(v: Seq<(int, AssignmentView)>, n: nat) -> bool {
    forall|k: int| 0 <= k < v.len() ==> 0 <= (#[trigger] v[k]).0 < n
}

/// Finding an attribute leaves one less.
pub proof fn lemma_missing_update(found: Seq<Option<FoundView>>, id: int, f: FoundView)
    requires
        0 <= id < found.len(),
        found[id] is None,
    ensures
        missing(found) == missing(found.update(id, Some(f))) + 1,
    decreases found.len(),
{
    let after = found.update(id, Some(f));
    if id == found.len() - 1 {
        assert(after.drop_last() =~= found.drop_last());
    } else {
        assert(after.drop_last() =~= found.drop_last().update(id, Some(f)));
        lemma_missing_update(found.drop_last(), id, f);
    }
}

/// Finding an attribute that is asked for leaves at least one less of those.
proof fn lemma_missing_selected_update(
    selected: Seq<(Seq<u8>, Option<usize>)>,
    found: Seq<Option<FoundView>>,
    id: int,
    f: FoundView,
)
    requires
        0 <= id < found.len(),
        found[id] is None,
        forall|k: int|
            0 <= k < selected.len() ==> ((#[trigger] selected[k]).1 matches Some(i) ==> i < found.len()),
    ensures
        missing_selected(selected, found) >= missing_selected(selected, found.update(id, Some(f))),
        in_selection(selected, id) ==> missing_selected(selected, found) >= missing_selected(
            selected,
            found.update(id, Some(f)),
        ) + 1,
    decreases selected.len(),
{
    if selected.len() > 0 {
        lemma_missing_selected_update(selected.drop_last(), found, id, f);
        if let Some(i) = selected.last().1 {
            if i == id {
                assert(found.update(id, Some(f))[i as int] is Some);
            }
        }
    }
}

/// The attributes after the assignments of `stack` were made, from the last to the first, each with what it
/// sets as a macro. The result says whether nothing is left to be found; then the rest is not looked at.
pub open spec fn filled(o: OutcomeView, stack: Seq<Item>, place: Place) -> (OutcomeView, bool)
    decreases missing(o.found), stack.len(),
{
    if stack.len() == 0 {
        (o, false)
    } else {
        let item = stack.last();
        let rest = stack.drop_last();
        if !(0 <= item.id < o.found.len()) {
            (o, false)
        } else if o.found[item.id] is Some {
            filled(o, rest, place)
        } else {
            let next = o.with_item(item, place);
            if next.remaining == 0 {
                (next, true)
            } else {
                proof {
                    lemma_missing_update(o.found, item.id, next.found[item.id]->0);
                }
                if item.assignment.state is On && o.macros[item.id].len() > 0 {
                    filled(
                        next,
                        rest + pending(o.macros[item.id], next.found, Some(item.id as usize)),
                        place,
                    )
                } else {
                    filled(next, rest, place)
                }
            }
        }
    }
}

/// Finding an attribute keeps what holds of the rest.
proof fn lemma_with_item_wf(o: OutcomeView, item: Item, place: Place)
    requires
        o.wf(),
        0 <= item.id < o.found.len(),
        o.found[item.id] is None,
    ensures
        o.with_item(item, place).wf(),
        o.counts(item.id) ==> o.remaining >= 1,
{
    let next = o.with_item(item, place);
    let f = next.found[item.id]->0;
    if o.selected.len() == 0 {
        lemma_missing_update(o.found, item.id, f);
    } else {
        lemma_missing_selected_update(o.selected, o.found, item.id, f);
    }
}

/// Attributes that were found stay as they are.
pub proof fn law_found_attribute_stays(o: OutcomeView, stack: Seq<Item>, place: Place)
    ensures
        filled(o, stack, place).0.found.len() == o.found.len(),
        filled(o, stack, place).0.macros == o.macros,
        filled(o, stack, place).0.selected == o.selected,
        forall|i: int|
            0 <= i < o.found.len() && (#[trigger] o.found[i]) is Some ==> filled(
                o,
                stack,
                place,
            ).0.found[i] == o.found[i],
    decreases missing(o.found), stack.len(),
{
    if stack.len() > 0 {
        let item = stack.last();
        let rest = stack.drop_last();
        if 0 <= item.id < o.found.len() {
            if o.found[item.id] is Some {
                law_found_attribute_stays(o, rest, place);
            } else {
                let next = o.with_item(item, place);
                if next.remaining != 0 {
                    lemma_missing_update(o.found, item.id, next.found[item.id]->0);
                    if item.assignment.state is On && o.macros[item.id].len() > 0 {
                        law_found_attribute_stays(
                            next,
                            rest + pending(o.macros[item.id], next.found, Some(item.id as usize)),
                            place,
                        );
                    } else {
                        law_found_attribute_stays(next, rest, place);
                    }
                }
                assert forall|i: int| 0 <= i < o.found.len() && (#[trigger] o.found[i]) is Some implies filled(
                    o,
                    stack,
                    place,
                ).0.found[i] == o.found[i] by {
                    assert(next.found[i] == o.found[i]);
                }
            }
        }
    }
}

/// All numbers of the items are below `n`.
pub open spec fn items_in_range(v: Seq<Item>, n: nat) -> bool {
    forall|k: int| 0 <= k < v.len() ==> 0 <= (#[trigger] v[k]).id < n
}

pub proof fn lemma_pending_in_range(
    attrs: Seq<(int, AssignmentView)>,
    found: Seq<Option<FoundView>>,
    via: Option<usize>,
)
    requires
        in_range(attrs, found.len()),
    ensures
        items_in_range(pending(attrs, found, via), found.len()),
    decreases attrs.len(),
{
    if attrs.len() > 0 {
        assert(in_range(attrs.drop_last(), found.len()));
        lemma_pending_in_range(attrs.drop_last(), found, via);
        assert(attrs.last() == attrs[attrs.len() - 1]);
    }
}

/// Once assignments were made, and something is left to be found, each of their attributes is found.
pub proof fn law_assigned_attributes_are_found(o: OutcomeView, stack: Seq<Item>, place: Place)
    requires
        o.wf(),
        items_in_range(stack, o.found.len()),
        !filled(o, stack, place).1,
    ensures
        forall|k: int|
            0 <= k < stack.len() ==> filled(o, stack, place).0.found[(#[trigger] stack[k]).id] is Some,
    decreases missing(o.found), stack.len(),
{
    if stack.len() > 0 {
        let item = stack.last();
        let rest = stack.drop_last();
        assert(item == stack[stack.len() - 1]);
        assert(items_in_range(rest, o.found.len()));
        let end = filled(o, stack, place).0;
        if o.found[item.id] is Some {
            law_assigned_attributes_are_found(o, rest, place);
            law_found_attribute_stays(o, rest, place);
        } else {
            let next = o.with_item(item, place);
            lemma_with_item_wf(o, item, place);
            lemma_missing_update(o.found, item.id, next.found[item.id]->0);
            assert(next.remaining != 0);
            let more = if item.assignment.state is On && o.macros[item.id].len() > 0 {
                rest + pending(o.macros[item.id], next.found, Some(item.id as usize))
            } else {
                rest
            };
            assert(items_in_range(more, next.found.len())) by {
                assert(in_range(o.macros[item.id], o.found.len()));
                lemma_pending_in_range(o.macros[item.id], next.found, Some(item.id as usize));
            }
            law_assigned_attributes_are_found(next, more, place);
            law_found_attribute_stays(next, more, place);
            assert(next.found[item.id] is Some);
            assert forall|k: int| 0 <= k < rest.len() implies end.found[(#[trigger] rest[k]).id] is Some by {
                assert(more[k] == rest[k]);
            }
        }
        assert forall|k: int| 0 <= k < stack.len() implies end.found[(#[trigger] stack[k]).id] is Some by {
            if k < rest.len() {
                assert(rest[k] == stack[k]);
            }
        }
    }
}

/// An assignment that waits to be made.
#[derive(Debug)]
struct Waiting {
    id: usize,
    assignment: Assignment,
    via: Option<usize>,
}

/// The items that stand for those of `v`.
spec fn waiting_view(v: Seq<Waiting>) -> Seq<Item> {
    Seq::new(
        v.len(),
        |i: int| Item { id: v[i].id as int, assignment: v[i].assignment@, via: v[i].via },
    )
}

/// Those of `attrs` that were not found yet wait behind `stack`.
fn push_pending(
    stack: &mut Vec<Waiting>,
    attrs: &Vec<TrackedAssignment>,
    slots: &Vec<Slot>,
    via: Option<usize>,
)
    requires
        in_range(tracked_view(attrs@), slots@.len()),
    ensures
        waiting_view(final(stack)@) == waiting_view(old(stack)@) + pending(
            tracked_view(attrs@),
            found_view(slots@),
            via,
        ),
{
    let ghost all = tracked_view(attrs@);
    let ghost found = found_view(slots@);
    let mut i: usize = 0;
    assert(all.take(0) =~= Seq::<(int, AssignmentView)>::empty());
    assert(waiting_view(stack@) + pending(all.take(0), found, via) =~= waiting_view(stack@));
    while i < attrs.len()
        invariant
            i <= attrs@.len(),
            all == tracked_view(attrs@),
            found == found_view(slots@),
            in_range(all, slots@.len()),
            waiting_view(stack@) == waiting_view(old(stack)@) + pending(all.take(i as int), found, via),
        decreases attrs.len() - i,
    {
        let ghost before = waiting_view(stack@);
        let a = &attrs[i];
        proof {
            assert(all[i as int] == (a.id as int, a.inner@));
            assert(all.take(i + 1).drop_last() =~= all.take(i as int));
            assert(all.take(i + 1).last() == all[i as int]);
        }
        if slots[a.id].found.is_none() {
            stack.push(Waiting { id: a.id, assignment: a.inner.copy(), via });
            assert(waiting_view(stack@) =~= before.push(
                Item { id: a.id as int, assignment: a.inner@, via },
            ));
        }
        assert(waiting_view(stack@) =~= waiting_view(old(stack)@) + pending(
            all.take(i + 1),
            found,
            via,
        ));
        i += 1;
    }
    assert(all.take(all.len() as int) =~= all);
}

/// A copy of an optional path.
fn copy_source(v: &Option<Vec<u8>>) -> (r: Option<Vec<u8>>)
    ensures
        crate::git::config::source::maybe(r) == crate::git::config::source::maybe(*v),
{
    match v {
        Some(s) => Some(to_vec(s.as_slice())),
        None => None,
    }
}

impl Outcome {
    pub open spec fn wf(self) -> bool {
        self@.wf()
    }

    /// Nothing is asked for.
    pub fn new() -> (r: Outcome)
        ensures
            r.wf(),
            r@.found.len() == 0,
            r@.selected.len() == 0,
            r@.remaining == 0,
    {
        Outcome { slots: Vec::new(), selected: Vec::new(), remaining: 0 }
    }

    /// Whether nothing is left to be found.
    pub fn is_done(&self) -> (r: bool)
        ensures
            r == (self@.remaining == 0),
    {
        self.remaining == 0
    }

    /// Whether one of the attributes was not found.
    pub fn has_unspecified_attributes(&self, attrs: &Vec<TrackedAssignment>) -> (r: bool)
        requires
            in_range(tracked_view(attrs@), self@.found.len()),
        ensures
            r == some_missing(tracked_view(attrs@), self@.found),
    {
        let ghost all = tracked_view(attrs@);
        let mut i: usize = 0;
        while i < attrs.len()
            invariant
                i <= attrs@.len(),
                all == tracked_view(attrs@),
                in_range(all, self@.found.len()),
                forall|k: int| 0 <= k < i ==> self@.found[(#[trigger] all[k]).0] is Some,
            decreases attrs.len() - i,
        {
            assert(all[i as int].0 == attrs@[i as int].id);
            if self.slots[attrs[i].id].found.is_none() {
                return true;
            }
            i += 1;
        }
        false
    }

    /// Whether the attribute counts among those that are still to be found.
    fn counts(&self, id: usize) -> (r: bool)
        ensures
            r == self@.counts(id as int),
    {
        if self.selected.len() == 0 {
            return true;
        }
        let ghost all = self@.selected;
        let mut i: usize = 0;
        while i < self.selected.len()
            invariant
                i <= self.selected@.len(),
                all == self@.selected,
                !in_selection(all.take(i as int), id as int),
            decreases self.selected.len() - i,
        {
            proof {
                assert(all.take(i + 1).drop_last() =~= all.take(i as int));
                assert(all.take(i + 1).last() == all[i as int]);
            }
            let same = match self.selected[i].1 {
                Some(k) => k == id,
                None => false,
            };
            if same {
                proof {
                    assert(in_selection(all.take(i + 1), id as int));
                    lemma_in_selection(all, i + 1, id as int);
                }
                return true;
            }
            i += 1;
        }
        assert(all.take(all.len() as int) =~= all);
        false
    }

    /// Makes the assignments of `attrs`, which a line of the file `source` with the pattern `pattern` makes,
    /// as far as the attributes were not found yet. Says whether nothing is left to be found.
    pub fn fill_attributes(
        &mut self,
        attrs: &Vec<TrackedAssignment>,
        pattern: &Pattern,
        source: &Option<Vec<u8>>,
        sequence_number: usize,
    ) -> (r: bool)
        requires
            old(self).wf(),
            in_range(tracked_view(attrs@), old(self)@.found.len()),
        ensures
            final(self).wf(),
            (final(self)@, r) == filled(
                old(self)@,
                pending(tracked_view(attrs@), old(self)@.found, None),
                Place {
                    text: pattern.text@,
                    source: crate::git::config::source::maybe(*source),
                    number: sequence_number as int,
                },
            ),
            final(self)@.remaining <= old(self)@.remaining,
    {
        let ghost place = Place {
            text: pattern.text@,
            source: crate::git::config::source::maybe(*source),
            number: sequence_number as int,
        };
        let mut stack: Vec<Waiting> = Vec::new();
        push_pending(&mut stack, attrs, &self.slots, None);
        let ghost first = pending(tracked_view(attrs@), old(self)@.found, None);
        proof {
            assert(waiting_view(stack@) =~= first);
            lemma_pending_in_range(tracked_view(attrs@), old(self)@.found, None);
        }
        while stack.len() > 0
            invariant
                self.wf(),
                first == pending(tracked_view(attrs@), old(self)@.found, None),
                self@.remaining <= old(self)@.remaining,
                self@.found.len() == old(self)@.found.len(),
                items_in_range(waiting_view(stack@), self@.found.len()),
                place == (Place {
                    text: pattern.text@,
                    source: crate::git::config::source::maybe(*source),
                    number: sequence_number as int,
                }),
                filled(old(self)@, first, place) == filled(self@, waiting_view(stack@), place),
            decreases missing(self@.found), stack@.len(),
        {
            let ghost before = self@;
            let ghost items = waiting_view(stack@);
            let popped = stack.pop();
            if let Some(w) = popped {
                let ghost item = items.last();
                let id = w.id;
                proof {
                    assert(item == (Item { id: w.id as int, assignment: w.assignment@, via: w.via }));
                    assert(waiting_view(stack@) =~= items.drop_last());
                    assert(item == items[items.len() - 1]);
                    assert(0 <= item.id < self@.found.len());
                    assert(items_in_range(items.drop_last(), self@.found.len()));
                }
                if self.slots[id].found.is_none() {
                    let is_macro = self.slots[id].macro_attributes.len() > 0;
                    let expand = match w.assignment.state {
                        StackState::On => is_macro,
                        _ => false,
                    };
                    let counts = self.counts(id);
                    proof {
                        lemma_with_item_wf(before, item, place);
                        let next = before.with_item(item, place);
                        lemma_missing_update(before.found, item.id, next.found[item.id]->0);
                        assert(before.macros[item.id].len() == self.slots@[id as int].macro_attributes@.len());
                    }
                    let found = Found {
                        assignment: w.assignment,
                        is_macro,
                        via: w.via,
                        pattern: pattern.clone(),
                        source: copy_source(source),
                        sequence_number,
                    };
                    self.slots[id].found = Some(found);
                    if counts {
                        self.remaining = self.remaining - 1;
                    }
                    proof {
                        assert(self@.found =~= before.with_item(item, place).found);
                        assert(self@.macros =~= before.macros);
                        assert(self@ == before.with_item(item, place));
                    }
                    if self.remaining == 0 {
                        assert(filled(before, items, place) == (self@, true));
                        return true;
                    }
                    if expand {
                        proof {
                            assert(in_range(self@.macros[id as int], self@.found.len()));
                            lemma_pending_in_range(self@.macros[id as int], self@.found, Some(id));
                        }
                        push_pending(&mut stack, &self.slots[id].macro_attributes, &self.slots, Some(id));
                    }
                }
            }
        }
        assert(waiting_view(stack@).len() == 0);
        false
    }

    /// How the `i`-th of the attributes that were asked for is set.
    pub fn selected_state(&self, i: usize) -> (r: StackState)
        requires
            self.wf(),
            i < self@.selected.len(),
        ensures
            r@ == state_of(self@, i as int),
    {
        assert(self@.selected[i as int] == (self.selected@[i as int].0@, self.selected@[i as int].1));
        match self.selected[i].1 {
            None => StackState::Unspecified,
            Some(id) => match &self.slots[id].found {
                Some(f) => f.assignment.state.copy(),
                None => StackState::Unspecified,
            },
        }
    }
}

/// How the `i`-th of the attributes that were asked for is set.
pub open spec fn state_of(o: OutcomeView, i: int) -> StateView {
    match o.selected[i].1 {
        None => StateView::Unspecified,
        Some(id) => match o.found[id as int] {
            Some(f) => f.assignment.state,
            None => StateView::Unspecified,
        },
    }
}

/// One of the attributes was not found.
pub open spec fn some_missing(attrs: Seq<(int, AssignmentView)>, found: Seq<Option<FoundView>>) -> bool {
    exists|k: int| 0 <= k < attrs.len() && found[(#[trigger] attrs[k]).0] is None
}

/// What is among the first is among all.
proof fn lemma_in_selection(s: Seq<(Seq<u8>, Option<usize>)>, i: int, id: int)
    requires
        0 <= i <= s.len(),
        in_selection(s.take(i), id),
    ensures
        in_selection(s, id),
    decreases s.len(),
{
    if i == s.len() {
        assert(s.take(i) =~= s);
    } else {
        assert(s.drop_last().take(i) =~= s.take(i));
        lemma_in_selection(s.drop_last(), i, id);
    }
}

/// The lines of one file of attributes, for the paths below `base`.
#[derive(Debug)]
pub struct List {
    pub patterns: Vec<Mapping>,
    pub source: Option<Vec<u8>>,
    /// The directory of the file below the root, with a slash at its end.
    pub base: Option<Vec<u8>>,
}

impl List {
    /// The numbers of all lines are below `n`, and `base` ends with a slash.
    pub open spec fn wf(self, n: nat) -> bool {
        &&& forall|k: int| 0 <= k < self.patterns@.len() ==> line_wf(#[trigger] self.patterns@[k], n)
        &&& (self.base matches Some(b) ==> b@.len() > 0 && b@.last() == '/' as u8)
    }
}

/// The numbers of the line are below `n`.
pub open spec fn line_wf(m: Mapping, n: nat) -> bool {
    in_range(tracked_view(m.assignments@), n) && marked(m)
}

/// How a path is compared: its part below `base`, and where its last component begins there.
pub open spec fn below(base: Option<Seq<u8>>, path: Seq<u8>, basename: Option<usize>) -> Option<
    (Seq<u8>, Option<usize>),
> {
    match base {
        None => Some((path, basename)),
        Some(b) => if begins(path, b) {
            Some(
                (
                    from(path, b.len() as int),
                    match basename {
                        Some(pos) if pos != b.len() => Some((pos - b.len()) as usize),
                        _ => None,
                    },
                ),
            )
        } else {
            None
        },
    }
}

/// Wildcards do not match slashes.
pub open spec fn attribute_match_mode() -> WildmatchMode {
    WildmatchMode { no_match_slash_literal: true, ignore_case: false }
}

/// The attributes after the first `k` lines, from the last to the first, were applied to the path.
pub open spec fn searched(
    lines: Seq<Mapping>,
    k: int,
    source: Option<Seq<u8>>,
    path: Seq<u8>,
    basename: Option<usize>,
    is_dir: Option<bool>,
    o: OutcomeView,
) -> OutcomeView
    decreases k,
{
    if k <= 0 {
        o
    } else {
        let m = lines[k - 1];
        let attrs = tracked_view(m.assignments@);
        if m.pattern.mode != macro_mode() && some_missing(attrs, o.found) && path_matches(
            m.pattern.text@,
            m.pattern.mode,
            m.pattern.first_wildcard_pos,
            path,
            basename,
            is_dir,
            attribute_match_mode(),
        ) {
            let place = Place {
                text: m.pattern.text@,
                source,
                number: m.sequence_number as int,
            };
            let (next, done) = filled(o, pending(attrs, o.found, None), place);
            if done {
                next
            } else {
                searched(lines, k - 1, source, path, basename, is_dir, next)
            }
        } else {
            searched(lines, k - 1, source, path, basename, is_dir, o)
        }
    }
}

/// The attributes after the lines of one file were applied to the path.
pub open spec fn list_applied(
    l: List,
    path: Seq<u8>,
    basename: Option<usize>,
    is_dir: Option<bool>,
    o: OutcomeView,
) -> OutcomeView {
    match below(crate::git::config::source::maybe(l.base), path, basename) {
        None => o,
        Some((rest, pos)) => searched(
            l.patterns@,
            l.patterns@.len() as int,
            crate::git::config::source::maybe(l.source),
            rest,
            pos,
            is_dir,
            o,
        ),
    }
}

/// Where the last component of `s` begins, of which the first `k` bytes are looked at; `None` where it holds
/// no slash.
pub open spec fn basename_start(s: Seq<u8>, k: int) -> Option<usize>
    decreases k,
{
    if k <= 0 {
        None
    } else if s[k - 1] == '/' as u8 {
        Some(k as usize)
    } else {
        basename_start(s, k - 1)
    }
}

proof fn lemma_basename_start(s: Seq<u8>, k: int, p: int)
    requires
        0 <= p < k <= s.len(),
        k <= usize::MAX,
        s[p] == '/' as u8,
    ensures
        basename_start(s, k) matches Some(x) && p + 1 <= x <= k,
    decreases k,
{
    if s[k - 1] != '/' as u8 {
        lemma_basename_start(s, k - 1, p);
    }
}

proof fn lemma_basename_start_bound(s: Seq<u8>, k: int)
    requires
        0 <= k <= s.len(),
        k <= usize::MAX,
    ensures
        basename_start(s, k) matches Some(x) ==> 0 < x <= k,
    decreases k,
{
    if k > 0 && s[k - 1] != '/' as u8 {
        lemma_basename_start_bound(s, k - 1);
    }
}

/// Where the last component begins.
pub fn basename_pos(path: &[u8]) -> (r: Option<usize>)
    ensures
        r == basename_start(path@, path@.len() as int),
{
    let n = path.len();
    let mut k: usize = n;
    while k > 0
        invariant
            k <= n,
            n == path@.len(),
            basename_start(path@, n as int) == basename_start(path@, k as int),
        decreases k,
    {
        if path[k - 1] == '/' as u8 {
            return Some(k);
        }
        k -= 1;
    }
    None
}

/// Applies the lines of one file to a path. Says whether that found anything.
pub fn pattern_matching_relative_path(
    list: &List,
    relative_path: &[u8],
    is_dir: Option<bool>,
    out: &mut Outcome,
) -> (r: bool)
    requires
        old(out).wf(),
        list.wf(old(out)@.found.len()),
    ensures
        final(out).wf(),
        final(out)@ == list_applied(
            *list,
            relative_path@,
            basename_start(relative_path@, relative_path@.len() as int),
            is_dir,
            old(out)@,
        ),
        final(out)@.found.len() == old(out)@.found.len(),
        final(out)@.remaining <= old(out)@.remaining,
        r == (final(out)@.remaining != old(out)@.remaining),
{
    let basename = basename_pos(relative_path);
    let total = relative_path.len();
    proof {
        let n = total as int;
        if let Some(b) = &list.base {
            if begins(relative_path@, b@) {
                assert(relative_path@.subrange(0, b@.len() as int)[b@.len() - 1] == b@.last());
                lemma_basename_start(relative_path@, n, b@.len() - 1);
            }
        }
        lemma_basename_start_bound(relative_path@, n);
    }
    let (path, pos) = match &list.base {
        None => (relative_path, basename),
        Some(base) => match strip_base_handle_recompute_basename_pos(
            base.as_slice(),
            relative_path,
            basename,
            Case::Sensitive,
        ) {
            None => {
                return false;
            },
            Some(x) => x,
        },
    };
    let cur_len = out.remaining;
    let mode = WildmatchMode { no_match_slash_literal: true, ignore_case: false };
    let macros = PatternMode {
        no_sub_dir: true,
        ends_with: true,
        must_be_dir: true,
        negative: true,
        absolute: true,
    };
    let ghost source = crate::git::config::source::maybe(list.source);
    let ghost first = out@;
    let mut k: usize = list.patterns.len();
    while k > 0
        invariant
            k <= list.patterns@.len(),
            out.wf(),
            first == old(out)@,
            list_applied(
                *list,
                relative_path@,
                basename_start(relative_path@, relative_path@.len() as int),
                is_dir,
                first,
            ) == searched(
                list.patterns@,
                list.patterns@.len() as int,
                source,
                path@,
                pos,
                is_dir,
                first,
            ),
            out@.remaining <= first.remaining,
            cur_len == first.remaining,
            out@.found.len() == first.found.len(),
            list.wf(first.found.len()),
            source == crate::git::config::source::maybe(list.source),
            mode == attribute_match_mode(),
            macros == macro_mode(),
            pos matches Some(p) ==> p <= path@.len(),
            searched(list.patterns@, list.patterns@.len() as int, source, path@, pos, is_dir, first)
                == searched(list.patterns@, k as int, source, path@, pos, is_dir, out@),
        decreases k,
    {
        let m = &list.patterns[k - 1];
        assert(line_wf(*m, first.found.len()));
        let ghost before = out@;
        if m.pattern.mode != macros && out.has_unspecified_attributes(&m.assignments)
            && m.pattern.matches_repo_relative_path(path, pos, is_dir, Case::Sensitive, mode) {
            proof {
                law_found_attribute_stays(
                    before,
                    pending(tracked_view(m.assignments@), before.found, None),
                    Place { text: m.pattern.text@, source, number: m.sequence_number as int },
                );
            }
            let all_filled = out.fill_attributes(
                &m.assignments,
                &m.pattern,
                &list.source,
                m.sequence_number,
            );
            if all_filled {
                return cur_len != out.remaining;
            }
        }
        k -= 1;
    }
    cur_len != out.remaining
}

/// All files of attributes, those that count more behind the others.
#[derive(Debug)]
pub struct Search {
    pub patterns: Vec<List>,
}

/// The attributes after the first `k` files, from the last to the first, were applied to the path, up to
/// where nothing is left to be found.
pub open spec fn all_applied(
    lists: Seq<List>,
    k: int,
    path: Seq<u8>,
    is_dir: Option<bool>,
    o: OutcomeView,
) -> OutcomeView
    decreases k,
{
    if k <= 0 {
        o
    } else {
        let next = list_applied(
            lists[k - 1],
            path,
            basename_start(path, path.len() as int),
            is_dir,
            o,
        );
        if next.remaining == 0 {
            next
        } else {
            all_applied(lists, k - 1, path, is_dir, next)
        }
    }
}

/// The lines that are kept.
pub open spec fn kept(ms: Seq<MappingView>, allow_macros: bool) -> Seq<MappingView>
    decreases ms.len(),
{
    if ms.len() == 0 {
        ms
    } else if allow_macros || !ms.last().is_macro {
        kept(ms.drop_last(), allow_macros).push(ms.last())
    } else {
        kept(ms.drop_last(), allow_macros)
    }
}

/// The lines without those of macros, where these are not allowed.
fn retain(lines: Vec<Mapping>, allow_macros: bool) -> (r: Vec<Mapping>)
    requires
        forall|k: int| 0 <= k < lines@.len() ==> marked(#[trigger] lines@[k]),
    ensures
        mappings_view(r@) == kept(mappings_view(lines@), allow_macros),
        forall|k: int| 0 <= k < r@.len() ==> marked(#[trigger] r@[k]),
{
    let ghost all = mappings_view(lines@);
    let mut out: Vec<Mapping> = Vec::new();
    assert(all.take(0) =~= Seq::<MappingView>::empty());
    assert(mappings_view(out@) =~= kept(all.take(0), allow_macros));
    for m in it: lines
        invariant
            it.seq() == lines@,
            all == mappings_view(lines@),
            mappings_view(out@) == kept(all.take(it.index() as int), allow_macros),
            forall|k: int| 0 <= k < lines@.len() ==> marked(#[trigger] lines@[k]),
            forall|k: int| 0 <= k < out@.len() ==> marked(#[trigger] out@[k]),
    {
        let ghost before = mappings_view(out@);
        proof {
            let k = it.index() as int;
            assert(m == lines@[k]);
            assert(all.take(k + 1).drop_last() =~= all.take(k));
            assert(all.take(k + 1).last() == m@);
        }
        if allow_macros || !m.is_macro {
            out.push(m);
            assert(mappings_view(out@) =~= before.push(m@));
        }
    }
    assert(all.take(all.len() as int) =~= all);
    out
}

/// The lines of the macro that every search begins with.
pub open spec fn builtin_lines() -> Seq<MappingView> {
    lines_of(lit("[attr]binary -diff -merge -text"))
}

/// The lines of a file.
pub open spec fn lines_of(bytes: Seq<u8>) -> Seq<MappingView> {
    kept(mappings_from(from(bytes, bom_len(bytes)), 0, 0), true)
}

/// What is known of attributes after the lines of the first `n` files.
pub open spec fn learned_files(c: CollectionView, files: Seq<(Vec<u8>, Vec<u8>)>, n: int) -> CollectionView
    decreases n,
{
    if n <= 0 {
        c
    } else {
        learned_all(learned_files(c, files, n - 1), lines_of(files[n - 1].1@))
    }
}

/// The list is that of the file.
pub open spec fn is_list_of(file: (Vec<u8>, Vec<u8>), list: List) -> bool {
    &&& list.source matches Some(p) && p@ == file.0@
    &&& mappings_view(list.patterns@) == lines_of(file.1@)
}

impl Search {
    pub open spec fn wf(self, n: nat) -> bool {
        forall|k: int| 0 <= k < self.patterns@.len() ==> (#[trigger] self.patterns@[k]).wf(n)
    }

    /// No file.
    pub fn new() -> (r: Search)
        ensures
            r.patterns@.len() == 0,
            forall|n: nat| r.wf(n),
    {
        Search { patterns: Vec::new() }
    }

    /// Takes in the lines of a file behind all others.
    pub fn add_patterns_buffer(
        &mut self,
        bytes: &[u8],
        source: Vec<u8>,
        base: Option<Vec<u8>>,
        collection: &mut MetadataCollection,
        allow_macros: bool,
    )
        requires
            old(collection).wf(),
            old(self).wf(old(collection)@.names.len()),
            base matches Some(b) ==> b@.len() > 0 && b@.last() == '/' as u8,
        ensures
            final(collection).wf(),
            final(self).wf(final(collection)@.names.len()),
            extends(old(collection)@.names, final(collection)@.names),
            ({
                let lines = kept(mappings_from(from(bytes@, bom_len(bytes@)), 0, 0), allow_macros);
                &&& final(collection)@ == learned_all(old(collection)@, lines)
                &&& final(self).patterns@.len() == old(self).patterns@.len() + 1
                &&& final(self).patterns@.drop_last() == old(self).patterns@
                &&& mappings_view(final(self).patterns@.last().patterns@) == lines
                &&& final(self).patterns@.last().source == Some(source)
                &&& final(self).patterns@.last().base == base
            }),
            forall|k: int|
                0 <= k < final(self).patterns@.last().patterns@.len() ==> mapping_wf(
                    final(collection)@.names,
                    #[trigger] final(self).patterns@.last().patterns@[k],
                ),
    {
        let read = bytes_to_patterns(bytes);
        let mut patterns = retain(read, allow_macros);
        collection.update_from_list(&mut patterns);
        let ghost n = collection@.names.len();
        let list = List { patterns, source: Some(source), base };
        proof {
            assert forall|k: int| 0 <= k < list.patterns@.len() implies line_wf(
                #[trigger] list.patterns@[k],
                n,
            ) by {
                assert(mapping_wf(collection@.names, list.patterns@[k]));
                lemma_line_wf(collection@.names, list.patterns@[k]);
            }
        }
        self.patterns.push(list);
        assert(self.patterns@.drop_last() =~= old(self).patterns@);
        proof {
            assert forall|k: int| 0 <= k < self.patterns@.len() implies (#[trigger] self.patterns@[k]).wf(
                n,
            ) by {
                if k < old(self).patterns@.len() {
                    assert(self.patterns@[k] == old(self).patterns@[k]);
                    lemma_list_wf_grows(old(self).patterns@[k], old(collection)@.names.len(), n);
                }
            }
        }
    }

    /// The macro that every search begins with.
    pub fn add_builtin(&mut self, collection: &mut MetadataCollection)
        requires
            old(collection).wf(),
            old(self).wf(old(collection)@.names.len()),
        ensures
            final(collection).wf(),
            final(self).wf(final(collection)@.names.len()),
            extends(old(collection)@.names, final(collection)@.names),
            final(self).patterns@.len() == old(self).patterns@.len() + 1,
            final(self).patterns@.drop_last() == old(self).patterns@,
            final(collection)@ == learned_all(old(collection)@, builtin_lines()),
            mappings_view(final(self).patterns@.last().patterns@) == builtin_lines(),
            final(self).patterns@.last().source matches Some(p) && p@ == lit("[builtin]"),
            final(self).patterns@.last().base is None,
    {
        let source = to_vec("[builtin]".as_bytes());
        self.add_patterns_buffer(
            "[attr]binary -diff -merge -text".as_bytes(),
            source,
            None,
            collection,
            true,
        );
    }

    /// What holds for all repositories: the macro that every search begins with, and the files,
    /// of which each is given by its path and what it holds.
    pub fn new_globals(files: &Vec<(Vec<u8>, Vec<u8>)>, collection: &mut MetadataCollection) -> (r: Search)
        requires
            old(collection).wf(),
        ensures
            final(collection).wf(),
            r.wf(final(collection)@.names.len()),
            final(collection)@ == learned_files(
                learned_all(old(collection)@, builtin_lines()),
                files@,
                files@.len() as int,
            ),
            r.patterns@.len() == files@.len() + 1,
            mappings_view(r.patterns@[0].patterns@) == builtin_lines(),
            r.patterns@[0].source matches Some(p) && p@ == lit("[builtin]"),
            forall|i: int| 0 <= i < r.patterns@.len() ==> (#[trigger] r.patterns@[i]).base is None,
            forall|i: int|
                0 <= i < files@.len() ==> is_list_of(#[trigger] files@[i], r.patterns@[i + 1]),
    {
        let mut search = Search::new();
        search.add_builtin(collection);
        let ghost first = collection@;
        let count: usize = files.len();
        let mut i: usize = 0;
        while i < count
            invariant
                i <= count == files@.len(),
                collection.wf(),
                search.wf(collection@.names.len()),
                first == learned_all(old(collection)@, builtin_lines()),
                collection@ == learned_files(first, files@, i as int),
                search.patterns@.len() == i + 1,
                mappings_view(search.patterns@[0].patterns@) == builtin_lines(),
                search.patterns@[0].source matches Some(p) && p@ == lit("[builtin]"),
                forall|k: int| 0 <= k <= i ==> (#[trigger] search.patterns@[k]).base is None,
                forall|k: int| 0 <= k < i ==> is_list_of(#[trigger] files@[k], search.patterns@[k + 1]),
            decreases count - i,
        {
            let ghost before = search.patterns@;
            search.add_patterns_buffer(
                files[i].1.as_slice(),
                to_vec(files[i].0.as_slice()),
                None,
                collection,
                true,
            );
            proof {
                let after = search.patterns@;
                assert forall|k: int| 0 <= k < before.len() implies after[k] == before[k] by {
                    assert(after.drop_last()[k] == before[k]);
                }
                assert(is_list_of(files@[i as int], after[i + 1]));
            }
            i += 1;
        }
        search
    }

    /// Applies all files to a path. Says whether that found anything.
    pub fn pattern_matching_relative_path(
        &self,
        relative_path: &[u8],
        is_dir: Option<bool>,
        out: &mut Outcome,
    ) -> (r: bool)
        requires
            old(out).wf(),
            self.wf(old(out)@.found.len()),
        ensures
            final(out).wf(),
            final(out)@.found.len() == old(out)@.found.len(),
            final(out)@ == all_applied(
                self.patterns@,
                self.patterns@.len() as int,
                relative_path@,
                is_dir,
                old(out)@,
            ),
            final(out)@.remaining <= old(out)@.remaining,
            r == (final(out)@.remaining != old(out)@.remaining),
    {
        let ghost first = out@;
        let mut has_match = false;
        let mut k: usize = self.patterns.len();
        while k > 0
            invariant
                k <= self.patterns@.len(),
                out.wf(),
                first == old(out)@,
                out@.remaining <= first.remaining,
                has_match == (out@.remaining != first.remaining),
                out@.found.len() == first.found.len(),
                self.wf(first.found.len()),
                all_applied(
                    self.patterns@,
                    self.patterns@.len() as int,
                    relative_path@,
                    is_dir,
                    first,
                ) == all_applied(self.patterns@, k as int, relative_path@, is_dir, out@),
            decreases k,
        {
            let found = pattern_matching_relative_path(&self.patterns[k - 1], relative_path, is_dir, out);
            has_match = has_match || found;
            if out.is_done() {
                return has_match;
            }
            k -= 1;
        }
        has_match
    }
}

/// Where nothing was found, everything is missing.
proof fn lemma_all_missing(found: Seq<Option<FoundView>>, selected: Seq<(Seq<u8>, Option<usize>)>)
    requires
        forall|i: int| 0 <= i < found.len() ==> (#[trigger] found[i]) is None,
        forall|k: int|
            0 <= k < selected.len() ==> ((#[trigger] selected[k]).1 matches Some(i) ==> i < found.len()),
    ensures
        missing(found) == found.len(),
        missing_selected(selected, found) == known(selected),
    decreases found.len() + selected.len(),
{
    if found.len() > 0 {
        assert forall|i: int| 0 <= i < found.drop_last().len() implies (
        #[trigger] found.drop_last()[i]) is None by {
            assert(found.drop_last()[i] == found[i]);
        }
        lemma_all_missing(found.drop_last(), Seq::empty());
    }
    if selected.len() > 0 {
        let s = selected.drop_last();
        assert forall|k: int| 0 <= k < s.len() implies ((#[trigger] s[k]).1 matches Some(i) ==> i
            < found.len()) by {
            assert(s[k] == selected[k]);
        }
        lemma_all_missing(found, s);
        assert(selected.last() == selected[selected.len() - 1]);
    }
}

/// What the attribute `i` sets as a macro once the attributes of `c` are known.
pub open spec fn refreshed_macro(c: MetadataCollection, o: OutcomeView, i: int) -> Seq<(int, AssignmentView)> {
    if o.found.len() == c.names@.len() {
        o.macros[i]
    } else if c.macro_attributes@[i]@.len() > 0 {
        tracked_view(c.macro_attributes@[i]@)
    } else if i < o.macros.len() {
        o.macros[i]
    } else {
        Seq::empty()
    }
}

/// The number of the attribute `name` where it is known.
pub open spec fn known_number(names: Seq<Seq<u8>>, name: Seq<u8>) -> Option<usize> {
    if names.contains(name) {
        Some(names.index_of(name) as usize)
    } else {
        None
    }
}

/// The attributes of `c` of which nothing was found, with what was asked for.
pub open spec fn fresh(c: MetadataCollection, o: OutcomeView, selected: Seq<(Seq<u8>, Option<usize>)>) -> OutcomeView {
    OutcomeView {
        found: Seq::new(c.names@.len(), |i: int| None),
        macros: Seq::new(c.names@.len(), |i: int| refreshed_macro(c, o, i)),
        selected,
        remaining: if selected.len() == 0 {
            c.names@.len() as int
        } else {
            known(selected) as int
        },
    }
}

/// What is asked for, with the numbers of what got one.
pub open spec fn renumbered(c: MetadataCollection, o: OutcomeView) -> Seq<(Seq<u8>, Option<usize>)> {
    if o.found.len() == c.names@.len() {
        o.selected
    } else {
        Seq::new(
            o.selected.len(),
            |k: int|
                if o.selected[k].1 is Some {
                    o.selected[k]
                } else {
                    (o.selected[k].0, known_number(c@.names, o.selected[k].0))
                },
        )
    }
}

impl Outcome {
    /// Forgets what was found.
    pub fn reset(&mut self)
        requires
            old(self)@.macros.len() == old(self)@.found.len(),
            forall|i: int|
                0 <= i < old(self)@.macros.len() ==> in_range(
                    #[trigger] old(self)@.macros[i],
                    old(self)@.found.len(),
                ),
            forall|k: int|
                0 <= k < old(self)@.selected.len() ==> ((#[trigger] old(self)@.selected[k]).1 matches Some(
                    i,
                ) ==> i < old(self)@.found.len()),
        ensures
            final(self).wf(),
            final(self)@.found.len() == old(self)@.found.len(),
            forall|i: int| 0 <= i < final(self)@.found.len() ==> (#[trigger] final(self)@.found[i]) is None,
            final(self)@.macros == old(self)@.macros,
            final(self)@.selected == old(self)@.selected,
            final(self)@.remaining == (if old(self)@.selected.len() == 0 {
                old(self)@.found.len()
            } else {
                known(old(self)@.selected)
            }),
    {
        let mut i: usize = 0;
        while i < self.slots.len()
            invariant
                i <= self.slots@.len(),
                self.slots@.len() == old(self).slots@.len(),
                self.selected == old(self).selected,
                forall|k: int| 0 <= k < i ==> (#[trigger] self.slots@[k]).found is None,
                forall|k: int|
                    0 <= k < self.slots@.len() ==> (#[trigger] self.slots@[k]).macro_attributes
                        == old(self).slots@[k].macro_attributes,
            decreases self.slots.len() - i,
        {
            self.slots[i].found = None;
            i += 1;
        }
        assert(self@.macros =~= old(self)@.macros);
        assert forall|k: int| 0 <= k < self@.found.len() implies (#[trigger] self@.found[k]) is None by {
            assert(self.slots@[k].found is None);
        }
        let ghost all = self@.selected;
        assert(all == old(self)@.selected);
        assert(self@.found.len() == old(self)@.found.len());
        proof {
            assert forall|k: int| 0 <= k < all.len() implies ((#[trigger] all[k]).1 matches Some(i) ==> i
                < self@.found.len()) by {
                assert(old(self)@.selected[k] == all[k]);
            }
            lemma_all_missing(self@.found, all);
        }
        let ghost found = self@.found;
        let ghost macros = self@.macros;
        if self.selected.len() == 0 {
            self.remaining = self.slots.len();
        } else {
            let mut count: usize = 0;
            let mut k: usize = 0;
            assert(all.take(0) =~= Seq::<(Seq<u8>, Option<usize>)>::empty());
            while k < self.selected.len()
                invariant
                    k <= self.selected@.len(),
                    all == self@.selected,
                    count <= k,
                    count == known(all.take(k as int)),
                decreases self.selected.len() - k,
            {
                proof {
                    assert(all.take(k + 1).drop_last() =~= all.take(k as int));
                    assert(all.take(k + 1).last() == all[k as int]);
                }
                if self.selected[k].1.is_some() {
                    count += 1;
                }
                k += 1;
            }
            assert(all.take(all.len() as int) =~= all);
            self.remaining = count;
        }
        assert(self@.found == found && self@.macros == macros && self@.selected == all);
    }

    /// Gives the attributes that are asked for and have no number the number that they have by now.
    fn renumber(&mut self, collection: &MetadataCollection)
        requires
            collection.wf(),
        ensures
            final(self).slots == old(self).slots,
            final(self)@.selected == Seq::new(
                old(self)@.selected.len(),
                |k: int|
                    if old(self)@.selected[k].1 is Some {
                        old(self)@.selected[k]
                    } else {
                        (
                            old(self)@.selected[k].0,
                            known_number(collection@.names, old(self)@.selected[k].0),
                        )
                    },
            ),
    {
        let ghost first = self@.selected;
        let mut k: usize = 0;
        while k < self.selected.len()
            invariant
                k <= self.selected@.len(),
                collection.wf(),
                first == old(self)@.selected,
                self.slots == old(self).slots,
                self.selected@.len() == first.len(),
                forall|j: int|
                    0 <= j < k ==> #[trigger] self@.selected[j] == (if first[j].1 is Some {
                        first[j]
                    } else {
                        (first[j].0, known_number(collection@.names, first[j].0))
                    }),
                forall|j: int| k <= j < first.len() ==> #[trigger] self@.selected[j] == first[j],
            decreases self.selected.len() - k,
        {
            let ghost before = self@.selected;
            let ghost items = self.selected@;
            assert(before[k as int] == first[k as int]);
            if self.selected[k].1.is_none() {
                let n = collection.number_of(self.selected[k].0.as_slice());
                self.selected[k].1 = n;
                proof {
                    if let Some(i) = n {
                        assert(collection@.names.index_of(first[k as int].0) == i);
                    }
                    assert(self@.selected[k as int] == (first[k as int].0, n));
                }
            }
            proof {
                assert forall|j: int| 0 <= j < first.len() && j != k implies #[trigger] self@.selected[j]
                    == before[j] by {
                    assert(self.selected@[j] == items[j]);
                }
                assert forall|j: int| 0 <= j < k + 1 implies #[trigger] self@.selected[j] == (
                if first[j].1 is Some {
                    first[j]
                } else {
                    (first[j].0, known_number(collection@.names, first[j].0))
                }) by {
                    if j < k {
                        assert(self@.selected[j] == before[j]);
                    }
                }
                assert forall|j: int| k + 1 <= j < first.len() implies #[trigger] self@.selected[j]
                    == first[j] by {
                    assert(self@.selected[j] == before[j]);
                }
            }
            k += 1;
        }
        assert(self@.selected =~= Seq::new(
            first.len(),
            |k: int|
                if first[k].1 is Some {
                    first[k]
                } else {
                    (first[k].0, known_number(collection@.names, first[k].0))
                },
        ));
    }

    /// Makes room for all attributes of `collection`, with what they set as macros.
    fn resize(&mut self, collection: &MetadataCollection)
        requires
            collection.wf(),
            old(self)@.found.len() < collection.names@.len(),
        ensures
            final(self).selected == old(self).selected,
            final(self)@.found.len() == collection.names@.len(),
            final(self)@.macros == Seq::new(
                collection.names@.len(),
                |i: int| refreshed_macro(*collection, old(self)@, i),
            ),
    {
        let ghost first = self@;
        while self.slots.len() < collection.names.len()
            invariant
                first.found.len() <= self.slots@.len() <= collection.names@.len(),
                first == old(self)@,
                self.selected == old(self).selected,
                forall|i: int|
                    0 <= i < self.slots@.len() ==> #[trigger] self@.macros[i] == (if i < first.macros.len() {
                        first.macros[i]
                    } else {
                        Seq::empty()
                    }),
            decreases collection.names.len() - self.slots.len(),
        {
            let ghost before = self@;
            let ghost n = self.slots@.len() as int;
            self.slots.push(Slot { found: None, macro_attributes: Vec::new() });
            proof {
                assert(tracked_view(self.slots@[n].macro_attributes@) =~= Seq::<(int, AssignmentView)>::empty());
                assert forall|i: int| 0 <= i < n + 1 implies #[trigger] self@.macros[i] == (if i
                    < first.macros.len() {
                    first.macros[i]
                } else {
                    Seq::empty()
                }) by {
                    if i < n {
                        assert(self@.macros[i] == before.macros[i]);
                    }
                }
            }
        }
        let mut i: usize = 0;
        while i < self.slots.len()
            invariant
                i <= self.slots@.len(),
                collection.wf(),
                self.slots@.len() == collection.names@.len(),
                first.found.len() < collection.names@.len(),
                first.macros.len() == first.found.len(),
                self.selected == old(self).selected,
                forall|j: int|
                    0 <= j < i ==> #[trigger] self@.macros[j] == refreshed_macro(*collection, first, j),
                forall|j: int|
                    i <= j < self.slots@.len() ==> #[trigger] self@.macros[j] == (if j
                        < first.macros.len() {
                        first.macros[j]
                    } else {
                        Seq::empty()
                    }),
            decreases self.slots.len() - i,
        {
            let ghost before = self@;
            assert(before.macros[i as int] == before.macros[i as int]);
            if collection.macro_attributes[i].len() > 0 {
                let copy = copy_tracked(&collection.macro_attributes[i]);
                self.slots[i].macro_attributes = copy;
            }
            proof {
                assert forall|j: int| 0 <= j < self.slots@.len() && j != i implies #[trigger] self@.macros[j]
                    == before.macros[j] by {
                }
                assert(self@.macros[i as int] == refreshed_macro(*collection, first, i as int));
            }
            i += 1;
        }
        assert(self@.macros =~= Seq::new(
            collection.names@.len(),
            |i: int| refreshed_macro(*collection, first, i),
        ));
    }

    /// Starts anew with all attributes of `collection`.
    pub fn initialize(&mut self, collection: &MetadataCollection)
        requires
            collection.wf(),
            old(self).wf(),
            old(self)@.found.len() <= collection.names@.len(),
        ensures
            final(self).wf(),
            final(self)@ == fresh(*collection, old(self)@, renumbered(*collection, old(self)@)),
    {
        let ghost first = self@;
        if self.slots.len() != collection.names.len() {
            self.resize(collection);
            self.renumber(collection);
        }
        proof {
            assert(self@.selected =~= renumbered(*collection, first));
            assert(self@.macros =~= Seq::new(
                collection.names@.len(),
                |i: int| refreshed_macro(*collection, first, i),
            ));
            lemma_refreshed_in_range(*collection, first, self@);
        }
        self.reset();
        proof {
            let f = fresh(*collection, first, renumbered(*collection, first));
            assert(self@.found =~= f.found);
            assert(self@.macros =~= f.macros);
        }
    }

    /// Starts anew with all attributes of `collection`, of which those of `names` are asked for.
    pub fn initialize_with_selection(&mut self, collection: &MetadataCollection, names: Vec<Vec<u8>>)
        requires
            collection.wf(),
            old(self).wf(),
            old(self)@.found.len() <= collection.names@.len(),
        ensures
            final(self).wf(),
            final(self)@ == fresh(
                *collection,
                old(self)@,
                Seq::new(
                    names@.len(),
                    |k: int| (names@[k]@, known_number(collection@.names, names@[k]@)),
                ),
            ),
    {
        let ghost first = self@;
        let ghost want = Seq::new(
            names@.len(),
            |k: int| (names@[k]@, known_number(collection@.names, names@[k]@)),
        );
        let mut selected: Vec<(Vec<u8>, Option<usize>)> = Vec::new();
        let mut k: usize = 0;
        while k < names.len()
            invariant
                k <= names@.len(),
                collection.wf(),
                want == Seq::new(
                    names@.len(),
                    |k: int| (names@[k]@, known_number(collection@.names, names@[k]@)),
                ),
                selected_view(selected@) == want.take(k as int),
            decreases names.len() - k,
        {
            let n = collection.number_of(names[k].as_slice());
            proof {
                if let Some(i) = n {
                    assert(collection@.names.index_of(names@[k as int]@) == i);
                }
                assert(n == want[k as int].1);
            }
            let ghost before = selected_view(selected@);
            selected.push((to_vec(names[k].as_slice()), n));
            assert(selected_view(selected@) =~= before.push(want[k as int]));
            assert(selected_view(selected@) =~= want.take(k + 1));
            k += 1;
        }
        assert(want.take(want.len() as int) =~= want);
        self.selected = selected;
        if self.slots.len() != collection.names.len() {
            self.resize(collection);
        }
        proof {
            assert(self@.macros =~= Seq::new(
                collection.names@.len(),
                |i: int| refreshed_macro(*collection, first, i),
            ));
            lemma_refreshed_in_range(*collection, first, self@);
        }
        self.reset();
        proof {
            let f = fresh(*collection, first, want);
            assert(self@.found =~= f.found);
            assert(self@.macros =~= f.macros);
        }
    }
}

/// What attributes set as macros has numbers of attributes.
proof fn lemma_refreshed_in_range(c: MetadataCollection, o: OutcomeView, now: OutcomeView)
    requires
        c.wf(),
        o.wf(),
        o.found.len() <= c.names@.len(),
        now.found.len() == c.names@.len(),
        now.macros == Seq::new(c.names@.len(), |i: int| refreshed_macro(c, o, i)),
    ensures
        forall|i: int| 0 <= i < now.macros.len() ==> in_range(#[trigger] now.macros[i], now.found.len()),
{
    assert forall|i: int| 0 <= i < now.macros.len() implies in_range(
        #[trigger] now.macros[i],
        now.found.len(),
    ) by {
        let m = refreshed_macro(c, o, i);
        assert(now.macros[i] == m);
        assert(numbered(c@.names, c.macro_attributes@[i]@));
        if i < o.macros.len() {
            assert(in_range(o.macros[i], o.found.len()));
        }
        assert forall|k: int| 0 <= k < m.len() implies 0 <= (#[trigger] m[k]).0 < now.found.len() by {
            if o.found.len() != c.names@.len() && c.macro_attributes@[i]@.len() > 0 {
                assert(has_number(c@.names, c.macro_attributes@[i]@[k]));
            } else if i < o.macros.len() {
                assert(o.macros[i][k] == m[k]);
            }
        }
    }
}

/// Lines whose assignments have their numbers have numbers below the number of attributes.
proof fn lemma_line_wf(names: Seq<Seq<u8>>, m: Mapping)
    requires
        mapping_wf(names, m),
    ensures
        line_wf(m, names.len()),
{
    let v = tracked_view(m.assignments@);
    assert forall|k: int| 0 <= k < v.len() implies 0 <= (#[trigger] v[k]).0 < names.len() by {
        assert(has_number(names, m.assignments@[k]));
    }
}

/// What holds below a number holds below a larger one.
pub proof fn lemma_list_wf_grows(l: List, n: nat, m: nat)
    requires
        l.wf(n),
        n <= m,
    ensures
        l.wf(m),
{
    assert forall|k: int| 0 <= k < l.patterns@.len() implies line_wf(#[trigger] l.patterns@[k], m) by {
        assert(line_wf(l.patterns@[k], n));
        let v = tracked_view(l.patterns@[k].assignments@);
        assert forall|j: int| 0 <= j < v.len() implies 0 <= (#[trigger] v[j]).0 < m by {
            assert(0 <= v[j].0 < n);
        }
    }
}

/// The search does not change what is asked for.
proof fn lemma_searched_selected(
    lines: Seq<Mapping>,
    k: int,
    source: Option<Seq<u8>>,
    path: Seq<u8>,
    basename: Option<usize>,
    is_dir: Option<bool>,
    o: OutcomeView,
)
    ensures
        searched(lines, k, source, path, basename, is_dir, o).selected == o.selected,
    decreases k,
{
    if k > 0 {
        let m = lines[k - 1];
        let attrs = tracked_view(m.assignments@);
        let place = Place { text: m.pattern.text@, source, number: m.sequence_number as int };
        let stack = pending(attrs, o.found, None);
        law_found_attribute_stays(o, stack, place);
        lemma_searched_selected(lines, k - 1, source, path, basename, is_dir, filled(o, stack, place).0);
        lemma_searched_selected(lines, k - 1, source, path, basename, is_dir, o);
    }
}

/// Applying files does not change what is asked for.
pub proof fn lemma_applied_selected(lists: Seq<List>, k: int, path: Seq<u8>, is_dir: Option<bool>, o: OutcomeView)
    ensures
        all_applied(lists, k, path, is_dir, o).selected == o.selected,
    decreases k,
{
    if k > 0 {
        let l = lists[k - 1];
        let basename = basename_start(path, path.len() as int);
        let next = list_applied(l, path, basename, is_dir, o);
        if let Some((rest, pos)) = below(crate::git::config::source::maybe(l.base), path, basename) {
            lemma_searched_selected(
                l.patterns@,
                l.patterns@.len() as int,
                crate::git::config::source::maybe(l.source),
                rest,
                pos,
                is_dir,
                o,
            );
        }
        if next.remaining != 0 {
            lemma_applied_selected(lists, k - 1, path, is_dir, next);
        }
    }
}

/// The attributes of a repository: those of all repositories, and those of this one, which count more.
#[derive(Debug)]
pub struct Attributes {
    pub globals: Search,
    pub stack: Search,
    pub collection: MetadataCollection,
}

/// What is known of the attributes of `path` once all files were applied to it.
pub open spec fn attributes_at(a: Attributes, path: Seq<u8>, is_dir: Option<bool>, o: OutcomeView) -> OutcomeView {
    let first = fresh(a.collection, o, renumbered(a.collection, o));
    let second = all_applied(a.stack.patterns@, a.stack.patterns@.len() as int, path, is_dir, first);
    if second.remaining == 0 {
        second
    } else {
        all_applied(a.globals.patterns@, a.globals.patterns@.len() as int, path, is_dir, second)
    }
}

impl Attributes {
    pub open spec fn wf(self) -> bool {
        &&& self.collection.wf()
        &&& self.globals.wf(self.collection@.names.len())
        &&& self.stack.wf(self.collection@.names.len())
    }

    /// The attributes of `globals` alone.
    pub fn new(globals: Search, collection: MetadataCollection) -> (r: Attributes)
        requires
            collection.wf(),
            globals.wf(collection@.names.len()),
        ensures
            r.wf(),
            r.globals == globals,
            r.collection == collection,
            r.stack.patterns@.len() == 0,
    {
        Attributes { globals, stack: Search::new(), collection }
    }

    /// Finds the attributes of a path. Says whether there are any.
    pub fn hx_matching_attributes(&self, relative_path: &[u8], is_dir: Option<bool>, out: &mut Outcome) -> (r: bool)
        requires
            self.wf(),
            old(out).wf(),
            old(out)@.found.len() <= self.collection@.names.len(),
        ensures
            final(out).wf(),
            final(out)@.found.len() == self.collection@.names.len(),
            final(out)@ == attributes_at(*self, relative_path@, is_dir, old(out)@),
            final(out)@.selected == renumbered(self.collection, old(out)@),
            r == (final(out)@.remaining != fresh(
                self.collection,
                old(out)@,
                renumbered(self.collection, old(out)@),
            ).remaining),
    {
        out.initialize(&self.collection);
        let ghost first = out@;
        assert(first.found.len() == self.collection@.names.len());
        let found = self.stack.pattern_matching_relative_path(relative_path, is_dir, out);
        let ghost second = out@;
        proof {
            lemma_applied_selected(
                self.stack.patterns@,
                self.stack.patterns@.len() as int,
                relative_path@,
                is_dir,
                first,
            );
            lemma_applied_selected(
                self.globals.patterns@,
                self.globals.patterns@.len() as int,
                relative_path@,
                is_dir,
                second,
            );
        }
        if out.is_done() {
            return found;
        }
        let more = self.globals.pattern_matching_relative_path(relative_path, is_dir, out);
        found || more
    }
}

} // verus!
