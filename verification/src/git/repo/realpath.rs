//! Paths with their links resolved.
use crate::bytes::to_vec;
use crate::components::{part_path, parts, parts_of, parts_view, push_part, pushed, Part, PartView};
use crate::git::error::GitError;
use crate::path::{absolute, is_absolute, parent, parent_of};
use vstd::prelude::*;

verus! {

/// How many links are followed.
pub const MAX_SYMLINKS: u8 = 32;

/// How many components are looked at.
pub const MAX_SYMLINK_CHECKS: usize = 2048;

/// A path on its way to having no links: what was resolved, and the components that are left.
#[derive(Debug)]
pub struct Resolving {
    pub real_path: Vec<u8>,
    pub components: Vec<Part>,
    pub num_symlinks: u8,
    pub symlink_checks: usize,
}

/// What comes of going on to the next component that may be a link.
pub enum Advance {
    /// All is resolved.
    Done(Seq<u8>),
    /// The path goes up from the root.
    Fail,
    /// The path may be a link; these components are left.
    Ask(Seq<u8>, Seq<PartView>),
}

/// What comes of going on with the components `v` from the path `p`.
pub open spec fn advanced(p: Seq<u8>, v: Seq<PartView>) -> Advance
    decreases v.len(),
{
    if v.len() == 0 {
        Advance::Done(p)
    } else {
        let rest = v.drop_first();
        match v[0] {
            PartView::Root => advanced(pushed(p, PartView::Root), rest),
            PartView::Here => advanced(p, rest),
            PartView::Up => match parent_of(p) {
                Some(d) => advanced(d, rest),
                None => Advance::Fail,
            },
            PartView::Name(n) => Advance::Ask(pushed(p, PartView::Name(n)), rest),
        }
    }
}

/// What is at a path.
#[derive(Debug)]
pub enum LinkAnswer {
    NotALink,
    /// A link to this path.
    Link(Vec<u8>),
    /// A link that cannot be read.
    Failed,
}

/// What is to be done next.
#[derive(Debug, Clone, Copy, PartialEq, Eq, Structural)]
pub enum RealStep {
    /// All is resolved.
    Done,
    /// It is to be seen whether the path is a link.
    Ask,
}

/// The path is absolute, or is about to be.
pub open spec fn rooted(p: Seq<u8>, v: Seq<PartView>) -> bool {
    absolute(p) || (v.len() > 0 && v[0] is Root)
}

/// The parent of an absolute path is absolute.
proof fn lemma_parent_is_absolute(p: Seq<u8>)
    requires
        absolute(p),
    ensures
        parent_of(p) matches Some(d) ==> absolute(d),
{
    if parent_of(p) is Some {
        let n = p.len() as int;
        crate::path::lemma_trimmed(p, n);
        let e = crate::path::trimmed(p, n);
        crate::path::lemma_component_start(p, e);
        let st = crate::path::component_start(p, e);
        if st == 0 {
            assert(p[0] != '/' as u8);
        }
        crate::path::lemma_trimmed(p, st);
        let t = crate::path::trimmed(p, st);
        assert(t > 0);
        assert(p.subrange(0, t)[0] == p[0]);
    }
}

/// A path behind an absolute one is absolute.
proof fn lemma_pushed_is_absolute(p: Seq<u8>, c: PartView)
    requires
        absolute(p) || c is Root,
    ensures
        absolute(pushed(p, c)),
{
    let q = part_path(c);
    if !absolute(q) {
        assert(pushed(p, c)[0] == p[0]);
    }
}

impl Resolving {
    /// Starts with the path `path`, from `cwd` where it is relative.
    pub fn new(path: &[u8], cwd: &[u8]) -> (r: Result<Resolving, GitError>)
        ensures
            r is Ok <==> path@.len() > 0,
            r matches Err(e) ==> e is Gen,
            r matches Ok(x) ==> x.real_path@ == (if absolute(path@) {
                Seq::empty()
            } else {
                cwd@
            }) && parts_view(x.components@) == parts(path@) && x.num_symlinks == 0 && x.symlink_checks == 0,
            r matches Ok(x) ==> (absolute(path@) || absolute(cwd@) ==> rooted(
                x.real_path@,
                parts_view(x.components@),
            )),
    {
        if path.len() == 0 {
            return Err(GitError::Gen);
        }
        let mut real_path: Vec<u8> = Vec::new();
        if !is_absolute(path) {
            real_path = to_vec(cwd);
        }
        let components = parts_of(path);
        let r = Resolving { real_path, components, num_symlinks: 0, symlink_checks: 0 };
        assert(absolute(path@) ==> r.real_path@ =~= Seq::<u8>::empty());
        assert(absolute(path@) ==> parts(path@)[0] is Root);
        Ok(r)
    }

    /// Goes on to the next component that may be a link.
    pub fn advance(&mut self) -> (r: Result<RealStep, GitError>)
        requires
            old(self).symlink_checks < usize::MAX,
        ensures
            final(self).num_symlinks == old(self).num_symlinks,
            match advanced(old(self).real_path@, parts_view(old(self).components@)) {
                Advance::Done(p) => r == Ok::<RealStep, GitError>(RealStep::Done) && final(self).real_path@ == p && final(self).components@.len() == 0 && final(self).symlink_checks
                    == old(self).symlink_checks,
                Advance::Fail => r matches Err(e) && e is Gen,
                Advance::Ask(p, rest) => r == Ok::<RealStep, GitError>(RealStep::Ask) && final(self).real_path@ == p && parts_view(final(self).components@) == rest && final(self).symlink_checks == old(self).symlink_checks + 1,
            },
            rooted(old(self).real_path@, parts_view(old(self).components@)) && r is Ok ==> absolute(
                final(self).real_path@,
            ),
    {
        while self.components.len() > 0
            invariant
                self.num_symlinks == old(self).num_symlinks,
                self.symlink_checks == old(self).symlink_checks,
                old(self).symlink_checks < usize::MAX,
                advanced(old(self).real_path@, parts_view(old(self).components@)) == advanced(
                    self.real_path@,
                    parts_view(self.components@),
                ),
                rooted(old(self).real_path@, parts_view(old(self).components@)) ==> rooted(
                    self.real_path@,
                    parts_view(self.components@),
                ),
            decreases self.components@.len(),
        {
            let ghost v = parts_view(self.components@);
            let ghost p = self.real_path@;
            let part = self.components.remove(0);
            proof {
                assert(v[0] == part@);
                assert(parts_view(self.components@) =~= v.drop_first());
                if absolute(p) {
                    lemma_parent_is_absolute(p);
                }
                if absolute(p) || part@ is Root {
                    lemma_pushed_is_absolute(p, part@);
                }
            }
            match &part {
                Part::Root => {
                    self.real_path = push_part(self.real_path.as_slice(), &part);
                },
                Part::Here => {},
                Part::Up => match parent(self.real_path.as_slice()) {
                    None => {
                        return Err(GitError::Gen);
                    },
                    Some(d) => {
                        self.real_path = to_vec(d);
                    },
                },
                Part::Name(_) => {
                    self.real_path = push_part(self.real_path.as_slice(), &part);
                    self.symlink_checks = self.symlink_checks + 1;
                    return Ok(RealStep::Ask);
                },
            }
        }
        assert(parts_view(self.components@).len() == 0);
        Ok(RealStep::Done)
    }

    /// Takes note of what is at the path that was asked for. Too many links, too many components and a link that
    /// cannot be read are errors.
    pub fn told(&mut self, answer: LinkAnswer) -> (r: Result<(), GitError>)
        requires
            old(self).num_symlinks <= MAX_SYMLINKS,
        ensures
            final(self).symlink_checks == old(self).symlink_checks,
            r matches Err(e) ==> e is Gen,
            r is Err <==> old(self).symlink_checks > MAX_SYMLINK_CHECKS || match answer {
                LinkAnswer::NotALink => false,
                LinkAnswer::Link(_) => old(self).num_symlinks == MAX_SYMLINKS,
                LinkAnswer::Failed => true,
            },
            r is Ok ==> final(self).num_symlinks <= MAX_SYMLINKS && match answer {
                LinkAnswer::Link(dest) => {
                    &&& final(self).num_symlinks == old(self).num_symlinks + 1
                    &&& parts_view(final(self).components@) == parts(dest@) + parts_view(
                        old(self).components@,
                    )
                    &&& final(self).real_path@ == (if absolute(dest@) || parent_of(
                        old(self).real_path@,
                    ) is None {
                        old(self).real_path@
                    } else {
                        parent_of(old(self).real_path@)->0
                    })
                },
                _ => *final(self) == *old(self),
            },
            r is Ok && absolute(old(self).real_path@) ==> rooted(
                final(self).real_path@,
                parts_view(final(self).components@),
            ),
    {
        match answer {
            LinkAnswer::NotALink => {},
            LinkAnswer::Failed => {
                return Err(GitError::Gen);
            },
            LinkAnswer::Link(dest) => {
                if self.num_symlinks >= MAX_SYMLINKS {
                    return Err(GitError::Gen);
                }
                self.num_symlinks = self.num_symlinks + 1;
                proof {
                    if absolute(self.real_path@) {
                        lemma_parent_is_absolute(self.real_path@);
                    }
                }
                if !is_absolute(dest.as_slice()) {
                    match parent(self.real_path.as_slice()) {
                        Some(d) => {
                            self.real_path = to_vec(d);
                        },
                        None => {},
                    }
                }
                let mut v = parts_of(dest.as_slice());
                let ghost head = v@;
                let ghost tail = self.components@;
                v.append(&mut self.components);
                proof {
                    assert(v@ =~= head + tail);
                    assert(parts_view(v@) =~= parts_view(head) + parts_view(tail));
                }
                self.components = v;
            },
        }
        if self.symlink_checks > MAX_SYMLINK_CHECKS {
            return Err(GitError::Gen);
        }
        Ok(())
    }
}

} // verus!
