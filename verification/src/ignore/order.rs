//! The order in which a walk goes through directories.
use crate::bytes::{lemma_less_irreflexive, less, less_from};
use vstd::prelude::*;

verus! {

/// A directory that a walk is in: how many entries it has, and which of them comes next.
#[derive(Clone, Copy, Debug, PartialEq, Eq, Structural)]
pub struct Level {
    pub entries: usize,
    pub next: usize,
}

pub struct LevelView {
    pub entries: int,
    pub next: int,
}

/// What is to be done next in a walk.
#[derive(Clone, Copy, Debug, PartialEq, Eq, Structural)]
pub enum LevelStep {
    /// Take up an entry of the innermost directory.
    Take { depth: usize, index: usize },
    /// Leave the innermost directory.
    Leave,
    /// Nothing: the walk is at its end.
    End,
}

pub enum StepView {
    Take { depth: int, index: int },
    Leave,
    End,
}

impl View for LevelStep {
    type V = StepView;

    open spec fn view(&self) -> StepView {
        match self {
            LevelStep::Take { depth, index } => StepView::Take { depth: *depth as int, index: *index as int },
            LevelStep::Leave => StepView::Leave,
            LevelStep::End => StepView::End,
        }
    }
}

/// The directories of which a walk takes up the entries are no deeper than this.
pub open spec fn too_deep(depth: int, max: Option<int>) -> bool {
    max matches Some(m) && depth > m
}

/// What is to be done next in a walk that is in the given directories, the outermost first, and the directories after
/// that. The entries of a directory come one after the other; then the directory is left.
pub open spec fn next_level(open: Seq<LevelView>, max: Option<int>) -> (Seq<LevelView>, StepView) {
    let n = open.len() as int;
    if n == 0 {
        (open, StepView::End)
    } else if too_deep(n, max) || open.last().next >= open.last().entries {
        (open.drop_last(), StepView::Leave)
    } else {
        (
            open.update(n - 1, LevelView { entries: open.last().entries, next: open.last().next + 1 }),
            StepView::Take { depth: n, index: open.last().next },
        )
    }
}

/// The directories after the walk went into one with so many entries.
pub open spec fn entered(open: Seq<LevelView>, entries: int) -> Seq<LevelView> {
    open.push(LevelView { entries, next: 0 })
}

/// The depths that a walk is confined to.
#[derive(Clone, Copy, Debug, PartialEq, Eq, Structural)]
pub struct Depths {
    pub min: Option<usize>,
    pub max: Option<usize>,
}

impl Depths {
    /// No entry is given that is less deep.
    pub open spec fn least(self) -> int {
        match self.min {
            Some(m) => m as int,
            None => 0,
        }
    }

    /// No entry is given that is deeper.
    pub open spec fn greatest(self) -> Option<int> {
        match self.max {
            Some(m) => Some(m as int),
            None => None,
        }
    }
}

/// The directories that a walk is in, the outermost first.
#[derive(Debug)]
pub struct Levels {
    open: Vec<Level>,
    depths: Depths,
}

impl Levels {
    /// The directories.
    pub closed spec fn open(self) -> Seq<LevelView> {
        Seq::new(
            self.open@.len(),
            |i: int| LevelView { entries: self.open@[i].entries as int, next: self.open@[i].next as int },
        )
    }

    /// The depths that the walk is confined to.
    pub closed spec fn depths(self) -> Depths {
        self.depths
    }

    /// A walk that is in no directory.
    pub fn new(depths: Depths) -> (r: Levels)
        ensures
            r.open() == Seq::<LevelView>::empty(),
            r.depths() == depths,
    {
        let r = Levels { open: Vec::new(), depths };
        assert(r.open() =~= Seq::<LevelView>::empty());
        r
    }

    /// What is to be done next.
    pub fn next(&mut self) -> (r: LevelStep)
        ensures
            (final(self).open(), r@) == next_level(old(self).open(), old(self).depths().greatest()),
            final(self).depths() == old(self).depths(),
    {
        let ghost before = self.open();
        let depth: usize = self.open.len();
        if depth == 0 {
            return LevelStep::End;
        }
        let deep: bool = match self.depths.max {
            Some(m) => depth > m,
            None => false,
        };
        let last: Level = self.open[depth - 1];
        if deep || last.next >= last.entries {
            self.open.pop();
            assert(self.open() =~= before.drop_last());
            return LevelStep::Leave;
        }
        self.open.set(depth - 1, Level { entries: last.entries, next: last.next + 1 });
        assert(self.open() =~= next_level(before, self.depths.greatest()).0);
        LevelStep::Take { depth, index: last.next }
    }

    /// The walk goes into a directory with so many entries.
    pub fn enter(&mut self, entries: usize)
        ensures
            final(self).open() == entered(old(self).open(), entries as int),
            final(self).depths() == old(self).depths(),
    {
        let ghost before = self.open();
        self.open.push(Level { entries, next: 0 });
        assert(self.open() =~= entered(before, entries as int));
    }

    /// The walk leaves the innermost directory, if it is in any.
    pub fn leave(&mut self)
        ensures
            final(self).open() == (if old(self).open().len() == 0 {
                old(self).open()
            } else {
                old(self).open().drop_last()
            }),
            final(self).depths() == old(self).depths(),
    {
        let ghost before = self.open();
        self.open.pop();
        assert(before.len() > 0 ==> self.open() =~= before.drop_last());
        assert(before.len() == 0 ==> self.open() =~= before);
    }

    /// Whether an entry is deep enough to be given.
    pub fn is_given(&self, depth: usize) -> (r: bool)
        ensures
            r == (depth >= self.depths().least()),
    {
        match self.depths.min {
            Some(m) => depth >= m,
            None => true,
        }
    }
}

/// An entry of a directory, by its place in it. `None` stands for one that could not be read.
pub struct Named<'a> {
    pub name: Option<&'a [u8]>,
    pub place: usize,
}

pub open spec fn named_views(v: Seq<Named<'_>>) -> Seq<(Option<Seq<u8>>, usize)> {
    v.map_values(|e: Named<'_>| (opt_bytes(e.name), e.place))
}

/// The bytes, if there are any.
pub open spec fn opt_bytes(name: Option<&[u8]>) -> Option<Seq<u8>> {
    match name {
        Some(n) => Some(n@),
        None => None,
    }
}

/// The entry with the name `a` comes before the one with the name `b`. Those that could not be read come first.
pub open spec fn name_before(a: Option<Seq<u8>>, b: Option<Seq<u8>>) -> bool {
    match (a, b) {
        (Some(x), Some(y)) => less(x, y),
        (None, Some(_)) => true,
        (_, None) => false,
    }
}

/// The entries are in the order of their names, and those with the same name in the order of their places.
pub open spec fn by_name(v: Seq<(Option<Seq<u8>>, usize)>) -> bool {
    forall|i: int, j: int|
        0 <= i < j < v.len() ==> !name_before((#[trigger] v[j]).0, (#[trigger] v[i]).0) && (v[i].0 == v[j].0 ==> v[i].1
            < v[j].1)
}

/// `[T]::sort_by_key` puts the entries in the order of their names and keeps the order of those that have the same
/// name.
#[verifier::external_body]
fn sort_by_name<'a>(v: &mut Vec<Named<'a>>)
    requires
        forall|i: int, j: int| 0 <= i < j < old(v)@.len() ==> (#[trigger] old(v)@[i]).place < (#[trigger] old(v)@[j]).place,
    ensures
        named_views(final(v)@).to_multiset() == named_views(old(v)@).to_multiset(),
        by_name(named_views(final(v)@)),
{
    v.sort_by_key(|e| e.name);
}

/// The name of the entry at a place.
pub open spec fn name_at(names: Seq<Option<Vec<u8>>>, i: int) -> Option<Seq<u8>> {
    match names[i] {
        Some(n) => Some(n@),
        None => None,
    }
}

/// The places are those of all entries, in the order of their names.
pub open spec fn orders(places: Seq<usize>, names: Seq<Option<Vec<u8>>>) -> bool {
    &&& places.len() == names.len()
    &&& places.no_duplicates()
    &&& forall|i: int| 0 <= i < places.len() ==> (#[trigger] places[i]) < names.len()
    &&& forall|i: int, j: int|
        0 <= i < j < places.len() ==> {
            let a = name_at(names, (#[trigger] places[i]) as int);
            let b = name_at(names, (#[trigger] places[j]) as int);
            !name_before(b, a) && (a == b ==> places[i] < places[j])
        }
}

/// The places of the entries of a directory with these names, in the order of the names.
pub fn name_order(names: &Vec<Option<Vec<u8>>>) -> (r: Vec<usize>)
    ensures
        orders(r@, names@),
{
    let n: usize = names.len();
    let mut v: Vec<Named<'_>> = Vec::new();
    let mut i: usize = 0;
    while i < n
        invariant
            i <= n == names@.len(),
            v@.len() == i,
            forall|k: int|
                0 <= k < i ==> (#[trigger] v@[k]).place == k && opt_bytes(v@[k].name) == name_at(names@, k),
        decreases n - i,
    {
        let name: Option<&[u8]> = match &names[i] {
            Some(name) => Some(name.as_slice()),
            None => None,
        };
        v.push(Named { name, place: i });
        i += 1;
    }
    let ghost before = named_views(v@);
    sort_by_name(&mut v);
    let ghost after = named_views(v@);
    proof {
        assert(after.len() == before.len()) by {
            before.to_multiset_ensures();
            after.to_multiset_ensures();
        }
        assert forall|k: int| 0 <= k < after.len() implies (#[trigger] after[k]).1 < n && after[k].0 == name_at(
            names@,
            after[k].1 as int,
        ) by {
            before.to_multiset_ensures();
            after.to_multiset_ensures();
            assert(after.contains(after[k]));
            assert(after.to_multiset().count(after[k]) > 0);
            assert(before.contains(after[k]));
            let x = choose|x: int| 0 <= x < before.len() && before[x] == after[k];
            assert(before[x].1 == x);
        }
    }
    let mut out: Vec<usize> = Vec::new();
    let mut k: usize = 0;
    while k < n
        invariant
            k <= n == v@.len(),
            after == named_views(v@),
            out@.len() == k,
            forall|x: int| 0 <= x < k ==> #[trigger] out@[x] == after[x].1,
        decreases n - k,
    {
        out.push(v[k].place);
        k += 1;
    }
    proof {
        assert forall|i: int, j: int| 0 <= i < j < out@.len() implies {
            let a = name_at(names@, (#[trigger] out@[i]) as int);
            let b = name_at(names@, (#[trigger] out@[j]) as int);
            !name_before(b, a) && (a == b ==> out@[i] < out@[j])
        } by {
            assert(!name_before(after[j].0, after[i].0));
        }
        assert forall|i: int, j: int| 0 <= i < out@.len() && 0 <= j < out@.len() && i != j implies out@[i]
            != out@[j] by {
            if i < j {
                assert(!name_before(after[j].0, after[i].0));
            } else {
                assert(!name_before(after[i].0, after[j].0));
            }
        }
    }
    out
}

/// Where no two entries have the same name and all could be read, their names ascend.
pub proof fn law_names_ascend(places: Seq<usize>, names: Seq<Option<Vec<u8>>>, i: int, j: int)
    requires
        orders(places, names),
        forall|k: int| 0 <= k < names.len() ==> name_at(names, k) is Some,
        forall|k: int, l: int| 0 <= k < l < names.len() ==> name_at(names, k) != name_at(names, l),
        0 <= i < j < places.len(),
    ensures
        less(name_at(names, places[i] as int)->0, name_at(names, places[j] as int)->0),
{
    let a = name_at(names, places[i] as int);
    let b = name_at(names, places[j] as int);
    assert(!name_before(b, a));
    assert(places[i] != places[j]);
    assert(a is Some && b is Some && a != b);
    assert(a->0.take(0) =~= b->0.take(0));
    lemma_less_total(a->0, b->0, 0);
}

proof fn lemma_less_total(a: Seq<u8>, b: Seq<u8>, i: int)
    requires
        0 <= i,
        i <= a.len(),
        i <= b.len(),
        a != b,
        a.take(i) == b.take(i),
    ensures
        less_from(a, b, i) || less_from(b, a, i),
    decreases a.len() - i,
{
    if i < a.len() && i < b.len() && a[i] == b[i] {
        assert(a.take(i + 1) =~= a.take(i).push(a[i]));
        assert(b.take(i + 1) =~= b.take(i).push(b[i]));
        lemma_less_total(a, b, i + 1);
    } else if i == a.len() && i == b.len() {
        assert(a =~= a.take(i));
        assert(b =~= b.take(i));
    }
}

/// A file, or a directory with what is in it.
pub struct Tree {
    pub name: Seq<u8>,
    pub below: Option<Seq<Tree>>,
}

/// What a walk gives: the depths that it is confined to, and the paths that it does not leave out.
pub struct Wanted {
    pub depths: Depths,
    pub keeps: spec_fn(Seq<Seq<u8>>) -> bool,
}

impl Wanted {
    /// The entry is given.
    pub open spec fn shows(self, at: Seq<Seq<u8>>) -> bool {
        at.len() >= self.depths.least() && (self.keeps)(at)
    }

    /// The entry is not left out, or not deep enough for that to be asked.
    pub open spec fn goes_into(self, at: Seq<Seq<u8>>) -> bool {
        at.len() < self.depths.least() || (self.keeps)(at)
    }

    /// What is in the directory is given.
    pub open spec fn enters(self, at: Seq<Seq<u8>>) -> bool {
        self.goes_into(at) && !too_deep(at.len() as int + 1, self.depths.greatest())
    }

    /// The entry, if it is given.
    pub open spec fn shown(self, at: Seq<Seq<u8>>) -> Seq<Seq<Seq<u8>>> {
        if self.shows(at) {
            seq![at]
        } else {
            seq![]
        }
    }
}

/// What is given of the trees from `k` on in the directory `at`: each directory before what is in it, and that before
/// what comes next.
pub open spec fn listed(ts: Seq<Tree>, k: int, at: Seq<Seq<u8>>, w: Wanted) -> Seq<Seq<Seq<u8>>>
    decreases ts, ts.len() - k,
{
    if 0 <= k < ts.len() {
        let here = at.push(ts[k].name);
        w.shown(here) + (match ts[k].below {
            Some(c) => if w.enters(here) {
                listed(c, 0, here, w)
            } else {
                seq![]
            },
            None => seq![],
        }) + listed(ts, k + 1, at, w)
    } else {
        seq![]
    }
}

/// What is given of a root and what is in it.
pub open spec fn listed_root(t: Tree, at: Seq<Seq<u8>>, w: Wanted) -> Seq<Seq<Seq<u8>>> {
    w.shown(at) + (match t.below {
        Some(c) => if w.enters(at) {
            listed(c, 0, at, w)
        } else {
            seq![]
        },
        None => seq![],
    })
}

/// What a walk gives in so many steps at most that is in the directories `open`, with what is in them: it goes into a
/// directory as soon as it was taken up, unless that is left out.
pub open spec fn walked(
    open: Seq<LevelView>,
    within: Seq<Seq<Tree>>,
    at: Seq<Seq<u8>>,
    w: Wanted,
    steps: nat,
) -> Seq<Seq<Seq<u8>>>
    decreases steps,
{
    if steps == 0 {
        seq![]
    } else {
        let (after, step) = next_level(open, w.depths.greatest());
        let rest = (steps - 1) as nat;
        match step {
            StepView::End => seq![],
            StepView::Leave => walked(after, within.drop_last(), at.drop_last(), w, rest),
            StepView::Take { depth, index } => {
                let t = within.last()[index];
                let here = at.push(t.name);
                w.shown(here) + (match t.below {
                    Some(c) => if w.goes_into(here) {
                        walked(entered(after, c.len() as int), within.push(c), here, w, rest)
                    } else {
                        walked(after, within, at, w, rest)
                    },
                    None => walked(after, within, at, w, rest),
                })
            },
        }
    }
}

/// How many steps it takes to go through the trees from `k` on, and to leave their directory.
pub open spec fn steps_through(ts: Seq<Tree>, k: int, at: Seq<Seq<u8>>, w: Wanted) -> nat
    decreases ts, ts.len() - k,
{
    if 0 <= k < ts.len() {
        let here = at.push(ts[k].name);
        1 + (match ts[k].below {
            Some(c) => if w.enters(here) {
                steps_through(c, 0, here, w)
            } else if w.goes_into(here) {
                1nat
            } else {
                0nat
            },
            None => 0nat,
        }) + steps_through(ts, k + 1, at, w)
    } else {
        1
    }
}

proof fn lemma_walked(
    open: Seq<LevelView>,
    within: Seq<Seq<Tree>>,
    at: Seq<Seq<u8>>,
    w: Wanted,
    steps: nat,
    ts: Seq<Tree>,
    k: int,
)
    requires
        open.len() == within.len() == at.len() + 1,
        ts == within.last(),
        open.last() == (LevelView { entries: ts.len() as int, next: k }),
        0 <= k <= ts.len(),
        !too_deep(open.len() as int, w.depths.greatest()),
        steps >= steps_through(ts, k, at, w),
    ensures
        walked(open, within, at, w, steps) == listed(ts, k, at, w) + walked(
            open.drop_last(),
            within.drop_last(),
            at.drop_last(),
            w,
            (steps - steps_through(ts, k, at, w)) as nat,
        ),
    decreases ts, ts.len() - k,
{
    let n = open.len() as int;
    let (after, step) = next_level(open, w.depths.greatest());
    let rest = (steps - 1) as nat;
    if k == ts.len() {
        let further = walked(open.drop_last(), within.drop_last(), at.drop_last(), w, rest);
        assert(Seq::<Seq<Seq<u8>>>::empty() + further =~= further);
    } else {
        let t = ts[k];
        let here = at.push(t.name);
        assert(decreases_to!(ts => t));
        assert(step == StepView::Take { depth: n, index: k });
        assert(after.last() == (LevelView { entries: ts.len() as int, next: k + 1 }));
        assert(after.drop_last() =~= open.drop_last());
        let inner: Seq<Seq<Seq<u8>>> = match t.below {
            Some(c) => if w.enters(here) {
                listed(c, 0, here, w)
            } else {
                seq![]
            },
            None => seq![],
        };
        let used: nat = match t.below {
            Some(c) => if w.enters(here) {
                steps_through(c, 0, here, w)
            } else if w.goes_into(here) {
                1
            } else {
                0
            },
            None => 0,
        };
        let left = (rest - used) as nat;
        let then = walked(after, within, at, w, left);
        let out = walked(open.drop_last(), within.drop_last(), at.drop_last(), w, (steps - steps_through(
            ts,
            k,
            at,
            w,
        )) as nat);
        lemma_walked(after, within, at, w, left, ts, k + 1);
        assert(then == listed(ts, k + 1, at, w) + out);
        let body = match t.below {
            Some(c) => if w.goes_into(here) {
                walked(entered(after, c.len() as int), within.push(c), here, w, rest)
            } else {
                walked(after, within, at, w, rest)
            },
            None => walked(after, within, at, w, rest),
        };
        assert(body == inner + then) by {
            if t.below is Some && w.goes_into(here) {
                let c = t.below->0;
                let deeper = entered(after, c.len() as int);
                assert(deeper.drop_last() =~= after);
                assert(within.push(c).drop_last() =~= within);
                assert(here.drop_last() =~= at);
                if w.enters(here) {
                    lemma_walked(deeper, within.push(c), here, w, rest, c, 0);
                } else {
                    assert(next_level(deeper, w.depths.greatest()).1 == StepView::Leave);
                    assert(inner + then =~= then);
                }
            } else {
                assert(inner + then =~= then);
            }
        }
        assert(walked(open, within, at, w, steps) == w.shown(here) + body);
        assert(w.shown(here) + (inner + (listed(ts, k + 1, at, w) + out)) =~= (w.shown(here) + inner + listed(
            ts,
            k + 1,
            at,
            w,
        )) + out);
    }
}

/// A walk in one thread that went into a root gives what is in it, each directory before what is in it and that before
/// what comes next.
pub proof fn law_walk_gives_all(ts: Seq<Tree>, w: Wanted, steps: nat)
    requires
        steps >= steps_through(ts, 0, seq![], w),
    ensures
        walked(entered(seq![], ts.len() as int), seq![ts], seq![], w, steps) == (if too_deep(1, w.depths.greatest()) {
            seq![]
        } else {
            listed(ts, 0, seq![], w)
        }),
{
    let open = entered(seq![], ts.len() as int);
    assert(open.drop_last() =~= seq![]);
    if too_deep(1, w.depths.greatest()) {
        assert(next_level(open, w.depths.greatest()).1 == StepView::Leave);
        reveal_with_fuel(walked, 2);
    } else {
        lemma_walked(open, seq![ts], seq![], w, steps, ts, 0);
        assert(next_level(open.drop_last(), w.depths.greatest()).1 == StepView::End);
        assert(listed(ts, 0, seq![], w) + Seq::<Seq<Seq<u8>>>::empty() =~= listed(ts, 0, seq![], w));
    }
}

/// The names of each directory ascend.
pub open spec fn sorted(ts: Seq<Tree>) -> bool
    decreases ts,
{
    &&& forall|i: int, j: int| 0 <= i < j < ts.len() ==> less(#[trigger] ts[i].name, #[trigger] ts[j].name)
    &&& forall|i: int|
        0 <= i < ts.len() ==> match (#[trigger] ts[i]).below {
            Some(c) => sorted(c),
            None => true,
        }
}

/// The path `a` comes before `b` from the component `i` on: at the first component where they differ its name comes
/// first, or it ends there.
pub open spec fn comes_before_from(a: Seq<Seq<u8>>, b: Seq<Seq<u8>>, i: int) -> bool
    decreases a.len() - i,
{
    if i >= b.len() {
        false
    } else if i >= a.len() {
        true
    } else if a[i] != b[i] {
        less(a[i], b[i])
    } else {
        comes_before_from(a, b, i + 1)
    }
}

/// The path `a` comes before `b`: it is above it, or at the first component where they differ its name comes first.
pub open spec fn comes_before(a: Seq<Seq<u8>>, b: Seq<Seq<u8>>) -> bool {
    comes_before_from(a, b, 0)
}

/// The paths come one before the other.
pub open spec fn all_ascend(v: Seq<Seq<Seq<u8>>>) -> bool {
    forall|i: int, j: int| 0 <= i < j < v.len() ==> comes_before(#[trigger] v[i], #[trigger] v[j])
}

proof fn lemma_before_by_name(a: Seq<Seq<u8>>, b: Seq<Seq<u8>>, p: int, i: int)
    requires
        0 <= i <= p < a.len(),
        p < b.len(),
        a.take(p) == b.take(p),
        less(a[p], b[p]),
    ensures
        comes_before_from(a, b, i),
    decreases p - i,
{
    if i < p {
        assert(a.take(p)[i] == b.take(p)[i]);
        lemma_before_by_name(a, b, p, i + 1);
    } else {
        lemma_less_irreflexive(a[p], 0);
    }
}

proof fn lemma_before_within(a: Seq<Seq<u8>>, b: Seq<Seq<u8>>, i: int)
    requires
        0 <= i <= a.len() < b.len(),
        b.take(a.len() as int) == a,
    ensures
        comes_before_from(a, b, i),
    decreases a.len() - i,
{
    if i < a.len() {
        assert(b.take(a.len() as int)[i] == a[i]);
        lemma_before_within(a, b, i + 1);
    }
}

/// The path goes on from the directory `at` to one of the trees from `k` on.
spec fn leads_into(e: Seq<Seq<u8>>, ts: Seq<Tree>, k: int, at: Seq<Seq<u8>>) -> bool {
    &&& e.len() > at.len()
    &&& e.take(at.len() as int) == at
    &&& exists|j: int| k <= j < ts.len() && (#[trigger] ts[j]).name == e[at.len() as int]
}

proof fn lemma_listed_within(ts: Seq<Tree>, k: int, at: Seq<Seq<u8>>, w: Wanted, x: int)
    requires
        0 <= k <= ts.len(),
        0 <= x < listed(ts, k, at, w).len(),
    ensures
        leads_into(listed(ts, k, at, w)[x], ts, k, at),
    decreases ts, ts.len() - k,
{
    if k < ts.len() {
        let here = at.push(ts[k].name);
        let n = at.len() as int;
        assert(decreases_to!(ts => ts[k]));
        let first = w.shown(here);
        let inner: Seq<Seq<Seq<u8>>> = match ts[k].below {
            Some(c) => if w.enters(here) {
                listed(c, 0, here, w)
            } else {
                seq![]
            },
            None => seq![],
        };
        let e = listed(ts, k, at, w)[x];
        assert(here.take(n) =~= at);
        if x < first.len() {
            assert(e == here);
            assert(ts[k].name == e[n]);
        } else if x < first.len() + inner.len() {
            let c = ts[k].below->0;
            lemma_listed_within(c, 0, here, w, x - first.len());
            assert(e == inner[x - first.len()]);
            assert(e.take(n) =~= here.take(n)) by {
                assert(e.take(n + 1).take(n) =~= e.take(n));
            }
            assert(e.take(n + 1)[n] == e[n]);
            assert(ts[k].name == e[n]);
        } else {
            lemma_listed_within(ts, k + 1, at, w, x - first.len() - inner.len());
        }
    }
}

/// Where the entries of each directory come in the order of their names, the paths that are given ascend: those in one
/// directory in the order of their names, each directory before what is in it, and that before what comes next.
pub proof fn law_sorted_walk_ascends(ts: Seq<Tree>, k: int, at: Seq<Seq<u8>>, w: Wanted)
    requires
        sorted(ts),
        0 <= k <= ts.len(),
    ensures
        all_ascend(listed(ts, k, at, w)),
    decreases ts, ts.len() - k,
{
    if k < ts.len() {
        let here = at.push(ts[k].name);
        let n = at.len() as int;
        assert(decreases_to!(ts => ts[k]));
        let first = w.shown(here);
        let inner: Seq<Seq<Seq<u8>>> = match ts[k].below {
            Some(c) => if w.enters(here) {
                listed(c, 0, here, w)
            } else {
                seq![]
            },
            None => seq![],
        };
        let rest = listed(ts, k + 1, at, w);
        let all = listed(ts, k, at, w);
        law_sorted_walk_ascends(ts, k + 1, at, w);
        if ts[k].below is Some && w.enters(here) {
            law_sorted_walk_ascends(ts[k].below->0, 0, here, w);
        }
        let m = (first.len() + inner.len()) as int;
        assert forall|i: int, j: int| 0 <= i < j < all.len() implies comes_before(
            #[trigger] all[i],
            #[trigger] all[j],
        ) by {
            if j < m {
                assert(all[j] == inner[j - first.len()]);
                if i < first.len() {
                    assert(all[i] == here);
                    lemma_listed_within(ts[k].below->0, 0, here, w, j - first.len());
                    lemma_before_within(here, all[j], 0);
                } else {
                    assert(all[i] == inner[i - first.len()]);
                }
            } else if i >= m {
                assert(all[i] == rest[i - m] && all[j] == rest[j - m]);
            } else {
                assert(all[j] == rest[j - m]);
                lemma_listed_within(ts, k + 1, at, w, j - m);
                let y = choose|y: int| k + 1 <= y < ts.len() && (#[trigger] ts[y]).name == all[j][n];
                assert(less(ts[k].name, ts[y].name));
                if i < first.len() {
                    assert(all[i] == here);
                } else {
                    assert(all[i] == inner[i - first.len()]);
                    lemma_listed_within(ts[k].below->0, 0, here, w, i - first.len());
                    assert(all[i].take(n + 1) == here);
                    assert(all[i].take(n + 1)[n] == all[i][n]);
                    assert(all[i].take(n) =~= all[i].take(n + 1).take(n));
                }
                assert(here.take(n) =~= at);
                lemma_before_by_name(all[i], all[j], n, 0);
            }
        }
    }
}

/// There is an entry at `rel` below the directory `at` that is given: all directories on the way to it are gone into.
pub open spec fn reaches(ts: Seq<Tree>, at: Seq<Seq<u8>>, rel: Seq<Seq<u8>>, w: Wanted) -> bool
    decreases rel.len(),
{
    rel.len() > 0 && {
        let here = at.push(rel[0]);
        exists|i: int|
            0 <= i < ts.len() && (#[trigger] ts[i]).name == rel[0] && (if rel.len() == 1 {
                w.shows(here)
            } else {
                ts[i].below is Some && w.enters(here) && reaches(ts[i].below->0, here, rel.drop_first(), w)
            })
    }
}

/// The tree `i` is the one that leads to the entry at `rel`.
spec fn leads_by(ts: Seq<Tree>, i: int, at: Seq<Seq<u8>>, rel: Seq<Seq<u8>>, w: Wanted) -> bool {
    let here = at.push(rel[0]);
    0 <= i < ts.len() && ts[i].name == rel[0] && (if rel.len() == 1 {
        w.shows(here)
    } else {
        ts[i].below is Some && w.enters(here) && reaches(ts[i].below->0, here, rel.drop_first(), w)
    })
}

proof fn lemma_reaches(ts: Seq<Tree>, at: Seq<Seq<u8>>, rel: Seq<Seq<u8>>, w: Wanted)
    ensures
        reaches(ts, at, rel, w) <==> rel.len() > 0 && exists|i: int| #[trigger] leads_by(ts, i, at, rel, w),
{
    if reaches(ts, at, rel, w) {
        let here = at.push(rel[0]);
        let i = choose|i: int|
            0 <= i < ts.len() && (#[trigger] ts[i]).name == rel[0] && (if rel.len() == 1 {
                w.shows(here)
            } else {
                ts[i].below is Some && w.enters(here) && reaches(ts[i].below->0, here, rel.drop_first(), w)
            });
        assert(leads_by(ts, i, at, rel, w));
    }
    if rel.len() > 0 && exists|i: int| #[trigger] leads_by(ts, i, at, rel, w) {
        let i = choose|i: int| #[trigger] leads_by(ts, i, at, rel, w);
        assert(ts[i].name == rel[0]);
    }
}

proof fn lemma_listed_contains(ts: Seq<Tree>, k: int, at: Seq<Seq<u8>>, rel: Seq<Seq<u8>>, w: Wanted)
    requires
        0 <= k <= ts.len(),
    ensures
        listed(ts, k, at, w).contains(at + rel) <==> rel.len() > 0 && exists|i: int|
            k <= i && #[trigger] leads_by(ts, i, at, rel, w),
    decreases ts, ts.len() - k,
{
    let e = at + rel;
    let n = at.len() as int;
    let all = listed(ts, k, at, w);
    if k < ts.len() {
        let name = ts[k].name;
        let here = at.push(name);
        assert(decreases_to!(ts => ts[k]));
        let first = w.shown(here);
        let inner: Seq<Seq<Seq<u8>>> = match ts[k].below {
            Some(c) => if w.enters(here) {
                listed(c, 0, here, w)
            } else {
                seq![]
            },
            None => seq![],
        };
        let rest = listed(ts, k + 1, at, w);
        lemma_listed_contains(ts, k + 1, at, rel, w);
        assert(all == first + inner + rest);
        lemma_in_three(first, inner, rest, e);
        assert(first.contains(e) <==> w.shows(here) && e == here) by {
            if w.shows(here) {
                assert(first[0] == here);
            }
        }
        if e == here {
            assert(e.len() == rel.len() + n);
            assert(e[n] == name && rel[0] == e[n]);
        }
        if rel.len() == 1 && rel[0] == name {
            assert(e =~= here);
        }
        if inner.contains(e) {
            let x = choose|x: int| 0 <= x < inner.len() && inner[x] == e;
            lemma_listed_within(ts[k].below->0, 0, here, w, x);
            assert(e.take(n + 1)[n] == e[n]);
            assert(rel[0] == name && rel.len() > 1);
        }
        if rel.len() > 1 && rel[0] == name {
            let further = rel.drop_first();
            assert(here + further =~= e);
            if ts[k].below is Some && w.enters(here) {
                let c = ts[k].below->0;
                lemma_listed_contains(c, 0, here, further, w);
                lemma_reaches(c, here, further, w);
                if exists|i: int| #[trigger] leads_by(c, i, here, further, w) {
                    let i = choose|i: int| #[trigger] leads_by(c, i, here, further, w);
                    assert(0 <= i && leads_by(c, i, here, further, w));
                }
                assert(inner.contains(e) <==> reaches(c, here, further, w));
            }
        }
        if rel.len() > 0 {
            assert(leads_by(ts, k, at, rel, w) <==> first.contains(e) || inner.contains(e));
        }
        if rel.len() > 0 && exists|i: int| k <= i && #[trigger] leads_by(ts, i, at, rel, w) {
            let i = choose|i: int| k <= i && #[trigger] leads_by(ts, i, at, rel, w);
            assert(i == k || (k + 1 <= i && leads_by(ts, i, at, rel, w)));
        }
        if rest.contains(e) {
            let i = choose|i: int| k + 1 <= i && #[trigger] leads_by(ts, i, at, rel, w);
            assert(k <= i && leads_by(ts, i, at, rel, w));
        }
    }
}

proof fn lemma_in_three<A>(a: Seq<A>, b: Seq<A>, c: Seq<A>, x: A)
    ensures
        (a + b + c).contains(x) <==> a.contains(x) || b.contains(x) || c.contains(x),
{
    let all = a + b + c;
    if a.contains(x) {
        let i = choose|i: int| 0 <= i < a.len() && a[i] == x;
        assert(all[i] == x);
    }
    if b.contains(x) {
        let i = choose|i: int| 0 <= i < b.len() && b[i] == x;
        assert(all[a.len() + i] == x);
    }
    if c.contains(x) {
        let i = choose|i: int| 0 <= i < c.len() && c[i] == x;
        assert(all[a.len() + b.len() + i] == x);
    }
    if all.contains(x) {
        let i = choose|i: int| 0 <= i < all.len() && all[i] == x;
        if i < a.len() {
            assert(a[i] == x);
        } else if i < a.len() + b.len() {
            assert(b[i - a.len()] == x);
        } else {
            assert(c[i - a.len() - b.len()] == x);
        }
    }
}

/// A walk gives an entry if and only if it is not left out, nor any directory on the way to it, and it is neither too
/// deep nor not deep enough.
pub proof fn law_nothing_else_is_left_out(ts: Seq<Tree>, at: Seq<Seq<u8>>, rel: Seq<Seq<u8>>, w: Wanted)
    ensures
        listed(ts, 0, at, w).contains(at + rel) <==> reaches(ts, at, rel, w),
{
    lemma_listed_contains(ts, 0, at, rel, w);
    lemma_reaches(ts, at, rel, w);
    if exists|i: int| #[trigger] leads_by(ts, i, at, rel, w) {
        let i = choose|i: int| #[trigger] leads_by(ts, i, at, rel, w);
        assert(0 <= i && leads_by(ts, i, at, rel, w));
    }
}

/// Both are the same but for the order of what is in each directory.
pub open spec fn alike(t: Tree, u: Tree) -> bool
    decreases t,
{
    t.name == u.name && match (t.below, u.below) {
        (Some(c), Some(d)) => {
            &&& forall|i: int| 0 <= i < c.len() ==> exists|j: int| 0 <= j < d.len() && alike(#[trigger] c[i], #[trigger] d[j])
            &&& forall|j: int| 0 <= j < d.len() ==> exists|i: int| 0 <= i < c.len() && alike(#[trigger] c[i], #[trigger] d[j])
        },
        (None, None) => true,
        _ => false,
    }
}

/// Which entries a walk gives does not depend on the order in which it takes them up.
pub proof fn law_order_changes_no_entry(t: Tree, u: Tree, at: Seq<Seq<u8>>, rel: Seq<Seq<u8>>, w: Wanted)
    requires
        alike(t, u),
        t.below is Some,
    ensures
        u.below is Some,
        reaches(t.below->0, at, rel, w) <==> reaches(u.below->0, at, rel, w),
    decreases rel.len(),
{
    let c = t.below->0;
    let d = u.below->0;
    if rel.len() > 0 {
        let here = at.push(rel[0]);
        lemma_reaches(c, at, rel, w);
        lemma_reaches(d, at, rel, w);
        if reaches(c, at, rel, w) {
            let i = choose|i: int| #[trigger] leads_by(c, i, at, rel, w);
            let j = choose|j: int| 0 <= j < d.len() && alike(#[trigger] c[i], #[trigger] d[j]);
            assert(alike(c[i], d[j]));
            if rel.len() > 1 {
                law_order_changes_no_entry(c[i], d[j], here, rel.drop_first(), w);
            }
            assert(leads_by(d, j, at, rel, w));
        }
        if reaches(d, at, rel, w) {
            let j = choose|j: int| #[trigger] leads_by(d, j, at, rel, w);
            let i = choose|i: int| 0 <= i < c.len() && alike(#[trigger] c[i], #[trigger] d[j]);
            assert(alike(c[i], d[j]));
            if rel.len() > 1 {
                law_order_changes_no_entry(c[i], d[j], here, rel.drop_first(), w);
            }
            assert(leads_by(c, i, at, rel, w));
        }
    }
}

/// An entry that a thread of a walk is to work on.
pub struct Item {
    pub tree: Tree,
    pub at: Seq<Seq<u8>>,
}

/// The entries of the directory `at`, from `k` on, that are not left out.
pub open spec fn items_within(ts: Seq<Tree>, k: int, at: Seq<Seq<u8>>, w: Wanted) -> Seq<Item>
    decreases ts.len() - k,
{
    if 0 <= k < ts.len() {
        let here = at.push(ts[k].name);
        (if (w.keeps)(here) {
            seq![Item { tree: ts[k], at: here }]
        } else {
            seq![]
        }) + items_within(ts, k + 1, at, w)
    } else {
        seq![]
    }
}

/// What is to be worked on once an entry was shown.
pub open spec fn items_of(item: Item, w: Wanted) -> Seq<Item> {
    match item.tree.below {
        Some(c) => if too_deep(item.at.len() as int + 1, w.depths.greatest()) {
            seq![]
        } else {
            items_within(c, 0, item.at, w)
        },
        None => seq![],
    }
}

/// The paths that are shown where the entries `items` are to be worked on and threads take them up in the order that
/// `picks` says, with what is left to be worked on.
pub open spec fn worked_on(items: Seq<Item>, picks: Seq<int>, w: Wanted) -> (Seq<Seq<Seq<u8>>>, Seq<Item>)
    decreases picks.len(),
{
    if picks.len() == 0 || !(0 <= picks[0] < items.len()) {
        (seq![], items)
    } else {
        let item = items[picks[0]];
        let (shown, left) = worked_on(items.remove(picks[0]) + items_of(item, w), picks.drop_first(), w);
        (w.shown(item.at) + shown, left)
    }
}

/// What a walk in one thread gives of the entries.
pub open spec fn listed_items(items: Seq<Item>, w: Wanted) -> Seq<Seq<Seq<u8>>>
    decreases items.len(),
{
    if items.len() == 0 {
        seq![]
    } else {
        listed_root(items[0].tree, items[0].at, w) + listed_items(items.drop_first(), w)
    }
}

proof fn lemma_listed_items_concat(a: Seq<Item>, b: Seq<Item>, w: Wanted)
    ensures
        listed_items(a + b, w) == listed_items(a, w) + listed_items(b, w),
    decreases a.len(),
{
    if a.len() == 0 {
        assert(a + b =~= b);
        assert(listed_items(a, w) + listed_items(b, w) =~= listed_items(b, w));
    } else {
        lemma_listed_items_concat(a.drop_first(), b, w);
        assert((a + b).drop_first() =~= a.drop_first() + b);
        assert(listed_items(a + b, w) =~= listed_items(a, w) + listed_items(b, w));
    }
}

proof fn lemma_listed_one(item: Item, w: Wanted)
    ensures
        listed_items(seq![item], w) == listed_root(item.tree, item.at, w),
{
    reveal_with_fuel(listed_items, 2);
    assert(seq![item].drop_first() =~= seq![]);
    assert(listed_items(seq![item], w) =~= listed_root(item.tree, item.at, w));
}

proof fn lemma_items_within(ts: Seq<Tree>, k: int, at: Seq<Seq<u8>>, w: Wanted)
    requires
        w.depths.least() == 0,
        0 <= k <= ts.len(),
    ensures
        listed_items(items_within(ts, k, at, w), w) == listed(ts, k, at, w),
        forall|i: int|
            0 <= i < items_within(ts, k, at, w).len() ==> (w.keeps)((#[trigger] items_within(ts, k, at, w)[i]).at),
    decreases ts.len() - k,
{
    if k < ts.len() {
        lemma_items_within(ts, k + 1, at, w);
        let here = at.push(ts[k].name);
        let rest = items_within(ts, k + 1, at, w);
        let all = items_within(ts, k, at, w);
        if (w.keeps)(here) {
            let one = seq![Item { tree: ts[k], at: here }];
            lemma_listed_items_concat(one, rest, w);
            lemma_listed_one(one[0], w);
            assert(listed_items(all, w) =~= listed(ts, k, at, w));
            assert forall|i: int| 0 <= i < all.len() implies (w.keeps)((#[trigger] all[i]).at) by {
                if i > 0 {
                    assert(all[i] == rest[i - 1]);
                }
            }
        } else {
            assert(all =~= rest);
            assert(listed(ts, k, at, w) =~= listed(ts, k + 1, at, w));
        }
    }
}

/// In whatever order threads take up the entries, once nothing is left to be worked on they were shown what a walk in one
/// thread gives, each entry as often.
pub proof fn law_threads_are_shown_the_same(items: Seq<Item>, picks: Seq<int>, w: Wanted)
    requires
        w.depths.least() == 0,
        forall|i: int| 0 <= i < items.len() ==> (w.keeps)((#[trigger] items[i]).at),
        worked_on(items, picks, w).1.len() == 0,
    ensures
        worked_on(items, picks, w).0.to_multiset() == listed_items(items, w).to_multiset(),
    decreases picks.len(),
{
    broadcast use vstd::seq_lib::group_to_multiset_ensures;

    if picks.len() == 0 || !(0 <= picks[0] < items.len()) {
        assert(items =~= seq![]);
    } else {
        let p = picks[0];
        let item = items[p];
        let more = items_of(item, w);
        let without = items.remove(p);
        let next = without + more;
        let inner: Seq<Seq<Seq<u8>>> = match item.tree.below {
            Some(c) => if w.enters(item.at) {
                listed(c, 0, item.at, w)
            } else {
                seq![]
            },
            None => seq![],
        };
        assert((w.keeps)(item.at));
        assert(listed_items(more, w) == inner && forall|i: int|
            0 <= i < more.len() ==> (w.keeps)((#[trigger] more[i]).at)) by {
            if item.tree.below is Some && w.enters(item.at) {
                lemma_items_within(item.tree.below->0, 0, item.at, w);
            } else {
                assert(more =~= seq![]);
            }
        }
        assert forall|i: int| 0 <= i < next.len() implies (w.keeps)((#[trigger] next[i]).at) by {
            if i < p {
                assert(next[i] == items[i]);
            } else if i < without.len() {
                assert(next[i] == items[i + 1]);
            } else {
                assert(next[i] == more[i - without.len()]);
            }
        }
        law_threads_are_shown_the_same(next, picks.drop_first(), w);
        let head = items.take(p);
        let tail = items.skip(p + 1);
        let one = seq![item];
        assert(without =~= head + tail);
        assert(items =~= head + (one + tail));
        lemma_listed_items_concat(without, more, w);
        lemma_listed_items_concat(head, tail, w);
        lemma_listed_items_concat(head, one + tail, w);
        lemma_listed_items_concat(one, tail, w);
        lemma_listed_one(item, w);
        let shown = worked_on(next, picks.drop_first(), w).0;
        let a = listed_items(head, w);
        let b = listed_items(tail, w);
        let s = w.shown(item.at);
        vstd::seq_lib::lemma_multiset_commutative(s, shown);
        vstd::seq_lib::lemma_multiset_commutative(a + b, inner);
        vstd::seq_lib::lemma_multiset_commutative(a, b);
        vstd::seq_lib::lemma_multiset_commutative(a, (s + inner) + b);
        vstd::seq_lib::lemma_multiset_commutative(s + inner, b);
        vstd::seq_lib::lemma_multiset_commutative(s, inner);
        assert((s + shown).to_multiset() =~= (a + ((s + inner) + b)).to_multiset());
    }
}

/// A walk in one thread and one in many give the same entries of a root and what is in it, each as often, where no
/// entry is too high up to be given.
pub proof fn law_walks_give_the_same(t: Tree, picks: Seq<int>, w: Wanted, steps: nat)
    requires
        w.depths.least() == 0,
        (w.keeps)(seq![]),
        worked_on(seq![Item { tree: t, at: seq![] }], picks, w).1.len() == 0,
        t.below matches Some(ts) ==> steps >= steps_through(ts, 0, seq![], w),
    ensures
        worked_on(seq![Item { tree: t, at: seq![] }], picks, w).0.to_multiset() == (w.shown(seq![]) + (match t.below {
            Some(ts) => walked(entered(seq![], ts.len() as int), seq![ts], seq![], w, steps),
            None => seq![],
        })).to_multiset(),
{
    let root = Item { tree: t, at: seq![] };
    law_threads_are_shown_the_same(seq![root], picks, w);
    lemma_listed_one(root, w);
    if let Some(ts) = t.below {
        law_walk_gives_all(ts, w, steps);
    }
}

} // verus!
