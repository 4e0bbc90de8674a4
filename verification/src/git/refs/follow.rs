//! Following references that name other references.
use crate::bytes::eq_bytes;
use crate::git::error::GitError;
use crate::git::oid::ObjectId;
use crate::git::refs::loose::{Target, TargetView};
use crate::git::refs::store::RawReference;
use vstd::prelude::*;

verus! {

/// How many references may be followed.
pub const MAX_REF_DEPTH: usize = 5;

/// The names that were followed so far.
#[derive(Debug)]
pub struct Followed {
    pub seen: Vec<Vec<u8>>,
}

/// The names that stand for those of `v`.
pub open spec fn seen_view(v: Seq<Vec<u8>>) -> Seq<Seq<u8>> {
    Seq::new(v.len(), |i: int| v[i]@)
}

impl View for Followed {
    type V = Seq<Seq<u8>>;

    open spec fn view(&self) -> Seq<Seq<u8>> {
        seen_view(self.seen@)
    }
}

impl Followed {
    /// No name was followed twice, and not too many were.
    pub open spec fn wf(self) -> bool {
        self@.no_duplicates() && self@.len() < MAX_REF_DEPTH
    }

    /// Nothing was followed yet.
    pub fn new() -> (r: Followed)
        ensures
            r.wf(),
            r@ == Seq::<Seq<u8>>::empty(),
    {
        let r = Followed { seen: Vec::new() };
        assert(r@ =~= Seq::<Seq<u8>>::empty());
        r
    }

    /// Takes note of the next name. A name that comes again and one too many are errors.
    pub fn step(&mut self, name: Vec<u8>) -> (r: Result<(), GitError>)
        requires
            old(self).wf(),
        ensures
            r is Ok <==> !old(self)@.contains(name@) && old(self)@.len() + 1 < MAX_REF_DEPTH,
            r is Ok ==> final(self).wf(),
            final(self)@ == (if old(self)@.contains(name@) {
                old(self)@
            } else {
                old(self)@.push(name@)
            }),
            r matches Err(e) ==> e is Gen,
    {
        let mut i: usize = 0;
        while i < self.seen.len()
            invariant
                i <= self.seen@.len(),
                self.seen == old(self).seen,
                forall|j: int| 0 <= j < i ==> #[trigger] self.seen@[j]@ != name@,
            decreases self.seen.len() - i,
        {
            if eq_bytes(self.seen[i].as_slice(), name.as_slice()) {
                assert(old(self)@[i as int] == name@);
                return Err(GitError::Gen);
            }
            i += 1;
        }
        assert(!old(self)@.contains(name@)) by {
            if old(self)@.contains(name@) {
                let k = choose|k: int| 0 <= k < old(self)@.len() && old(self)@[k] == name@;
                assert(self.seen@[k]@ == name@);
            }
        }
        self.seen.push(name);
        assert(self@ =~= old(self)@.push(name@));
        if self.seen.len() == MAX_REF_DEPTH {
            return Err(GitError::Gen);
        }
        Ok(())
    }
}

/// What is to be done to find the object of a reference.
#[derive(Debug)]
pub enum Peel {
    /// It is this one.
    Known(ObjectId),
    /// It is this one, if it is among the objects.
    Check(ObjectId),
    /// The reference with this name is to be found next.
    Follow(Vec<u8>),
}

impl RawReference {
    /// What is to be done to find the object of this reference.
    pub fn peel_plan(&self) -> (r: Peel)
        ensures
            match self.peeled {
                Some(id) => r matches Peel::Known(k) && k@ == id@,
                None => match self.target@ {
                    TargetView::Object(id) => r matches Peel::Check(k) && k@ == id,
                    TargetView::Symbolic(name) => r matches Peel::Follow(n) && n@ == name,
                },
            },
    {
        match self.peeled {
            Some(id) => Peel::Known(id),
            None => match &self.target {
                Target::Object(id) => Peel::Check(*id),
                Target::Symbolic(name) => Peel::Follow(crate::bytes::to_vec(name.0.as_slice())),
            },
        }
    }

    /// Takes note of the object that the reference comes to.
    pub fn peeled_to(&mut self, id: ObjectId)
        ensures
            final(self).name@ == old(self).name@,
            final(self).target@ == TargetView::Object(id@),
            final(self).peeled == Some(id),
    {
        self.peeled = Some(id);
        self.target = Target::Object(id);
    }
}

} // verus!
