//! Other directories of objects that a repository reads from.
use crate::bytes::{eq_bytes, find_byte, pos_of, to_vec};
use crate::git::error::GitError;
use crate::git::quote::{undo, unquoted};
use crate::path::{join, joined, paths_view};
use vstd::prelude::*;

verus! {

/// The path that one line names; `None` where the line names none.
pub open spec fn line_path(line: Seq<u8>) -> Option<Result<Seq<u8>, ()>> {
    if line.len() == 0 || line[0] == '#' as u8 {
        None
    } else {
        match unquoted(line) {
            Some((path, _)) => Some(Ok(path)),
            None => Some(Err(())),
        }
    }
}

/// The paths that the lines from position `i` on name; `None` where one cannot be read.
pub open spec fn paths_from(s: Seq<u8>, i: int) -> Option<Seq<Seq<u8>>>
    decreases s.len() + 1 - i,
{
    let p = pos_of(s, 0x0a, i);
    let line = s.subrange(i, p);
    if p < i || i > s.len() {
        Some(Seq::empty())
    } else {
        let rest = if p < s.len() {
            paths_from(s, p + 1)
        } else {
            Some(Seq::<Seq<u8>>::empty())
        };
        match line_path(line) {
            None => rest,
            Some(Err(_)) => None,
            Some(Ok(path)) => match rest {
                Some(more) => Some(seq![path] + more),
                None => None,
            },
        }
    }
}

/// The line feed that ends the line at `i`, or the end.
fn line_feed(s: &[u8], i: usize) -> (r: usize)
    requires
        i <= s@.len(),
    ensures
        r == pos_of(s@, 0x0a, i as int),
        i <= r <= s@.len(),
{
    let n = s.len();
    let rest = &s[i..n];
    let ghost p = pos_of(rest@, 0x0a, 0);
    proof {
        crate::bytes::lemma_pos_of(rest@, 0x0a, 0);
        assert forall|j: int| i <= j < i + p implies s@[j] != 0x0a by {
            assert(rest@[j - i] == s@[j]);
        }
        assert(p < rest@.len() ==> s@[i + p] == rest@[p]);
        crate::bytes::lemma_pos_of_is(s@, 0x0a, i as int, i + p);
    }
    match find_byte(rest, 0x0a) {
        Some(p) => i + p,
        None => n,
    }
}

/// The paths that the file of alternates names, one to a line; lines that are empty or begin with `#`
/// are passed over.
pub fn content(input: &[u8]) -> (r: Result<Vec<Vec<u8>>, GitError>)
    ensures
        r is Ok <==> paths_from(input@, 0) is Some,
        r matches Ok(v) ==> paths_from(input@, 0) == Some(paths_view(v@)),
        r matches Err(e) ==> e is Gen,
{
    let mut out: Vec<Vec<u8>> = Vec::new();
    let mut i: usize = 0;
    let n = input.len();
    proof {
        if let Some(rest) = paths_from(input@, 0) {
            assert(paths_view(out@) + rest =~= rest);
        }
    }
    loop
        invariant
            i <= n,
            n == input@.len(),
            paths_from(input@, 0) == (match paths_from(input@, i as int) {
                Some(rest) => Some(paths_view(out@) + rest),
                None => None,
            }),
        decreases n - i,
    {
        let ghost before = paths_view(out@);
        let p = line_feed(input, i);
        let line = &input[i..p];
        if line.len() > 0 && line[0] != '#' as u8 {
            match undo(line) {
                Err(e) => {
                    return Err(e);
                },
                Ok((path, _)) => {
                    out.push(path);
                    proof {
                        assert(paths_view(out@) =~= before.push(path@));
                        let rest = if p < n {
                            paths_from(input@, p + 1)
                        } else {
                            Some(Seq::<Seq<u8>>::empty())
                        };
                        if let Some(rest) = rest {
                            assert(before + (seq![path@] + rest) =~= paths_view(out@) + rest);
                        }
                    }
                },
            }
        }
        if p >= n {
            assert(paths_view(out@) + Seq::<Seq<u8>>::empty() =~= paths_view(out@));
            return Ok(out);
        }
        i = p + 1;
    }
}

/// A directory of objects that is still to be searched for further ones.
#[derive(Debug)]
pub struct Pending {
    pub depth: usize,
    pub dir: Vec<u8>,
}

/// The search for all directories of objects. `seen` holds the directories with their links resolved.
#[derive(Debug)]
pub struct Search {
    pub objects_directory: Vec<u8>,
    pub pending: Vec<Pending>,
    pub seen: Vec<Vec<u8>>,
    pub found: Vec<Vec<u8>>,
}

impl Search {
    /// No directory was seen twice.
    pub open spec fn wf(self) -> bool {
        paths_view(self.seen@).no_duplicates()
    }

    /// Starts at `objects_directory`, which is `resolved` with its links resolved.
    pub fn new(objects_directory: Vec<u8>, resolved: Vec<u8>) -> (r: Search)
        ensures
            r.wf(),
            r.objects_directory@ == objects_directory@,
            r.pending@.len() == 1 && r.pending@[0].depth == 0 && r.pending@[0].dir@ == objects_directory@,
            paths_view(r.seen@) == seq![resolved@],
            r.found@.len() == 0,
    {
        let mut pending: Vec<Pending> = Vec::new();
        pending.push(Pending { depth: 0, dir: to_vec(objects_directory.as_slice()) });
        let mut seen: Vec<Vec<u8>> = Vec::new();
        seen.push(resolved);
        assert(paths_view(seen@) =~= seq![resolved@]);
        Search { objects_directory, pending, seen, found: Vec::new() }
    }

    /// The next directory to be searched: the last that was found.
    pub fn next_dir(&mut self) -> (r: Option<Pending>)
        ensures
            r is None <==> old(self).pending@.len() == 0,
            r matches Some(p) ==> old(self).pending@ == final(self).pending@.push(p),
            r is None ==> final(self).pending@ == old(self).pending@,
            final(self).seen == old(self).seen,
            final(self).found == old(self).found,
            final(self).objects_directory == old(self).objects_directory,
    {
        let r = self.pending.pop();
        proof {
            if let Some(p) = &r {
                assert(old(self).pending@ =~= self.pending@.push(*p));
            }
        }
        r
    }

    /// The path of an alternate that a file names.
    pub fn alternate_path(&self, named: &[u8]) -> (r: Vec<u8>)
        ensures
            r@ == joined(self.objects_directory@, named@),
    {
        join(self.objects_directory.as_slice(), named)
    }

    /// Takes in the alternate at `path`, which is `resolved` with its links resolved, and which was named
    /// in a directory at `depth`. One that was seen before is an error: the directories form a circle.
    pub fn add_alternate(&mut self, depth: usize, path: Vec<u8>, resolved: Vec<u8>) -> (r: Result<
        (),
        GitError,
    >)
        requires
            old(self).wf(),
            depth < usize::MAX,
        ensures
            final(self).wf(),
            r is Ok <==> !paths_view(old(self).seen@).contains(resolved@),
            r is Ok ==> {
                &&& paths_view(final(self).seen@) == paths_view(old(self).seen@).push(resolved@)
                &&& final(self).pending@ == old(self).pending@.push(Pending { depth: (depth + 1) as usize, dir: path })
            },
            r matches Err(e) ==> e is Gen && *final(self) == *old(self),
            final(self).found == old(self).found,
            final(self).objects_directory == old(self).objects_directory,
    {
        let mut i: usize = 0;
        while i < self.seen.len()
            invariant
                i <= self.seen@.len(),
                *self == *old(self),
                self.wf(),
                forall|j: int| 0 <= j < i ==> #[trigger] self.seen@[j]@ != resolved@,
            decreases self.seen.len() - i,
        {
            if eq_bytes(self.seen[i].as_slice(), resolved.as_slice()) {
                assert(paths_view(old(self).seen@)[i as int] == resolved@);
                return Err(GitError::Gen);
            }
            i += 1;
        }
        assert(!paths_view(old(self).seen@).contains(resolved@)) by {
            let v = paths_view(old(self).seen@);
            if v.contains(resolved@) {
                let k = choose|k: int| 0 <= k < v.len() && v[k] == resolved@;
                assert(self.seen@[k]@ == resolved@);
            }
        }
        self.seen.push(resolved);
        assert(paths_view(self.seen@) =~= paths_view(old(self).seen@).push(resolved@));
        self.pending.push(Pending { depth: depth + 1, dir: path });
        Ok(())
    }

    /// Takes note of a directory that was searched; the first one is no alternate.
    pub fn searched(&mut self, done: Pending)
        ensures
            paths_view(final(self).found@) == (if done.depth != 0 {
                paths_view(old(self).found@).push(done.dir@)
            } else {
                paths_view(old(self).found@)
            }),
            final(self).seen == old(self).seen,
            final(self).pending == old(self).pending,
            final(self).objects_directory == old(self).objects_directory,
    {
        if done.depth != 0 {
            self.found.push(done.dir);
            assert(paths_view(self.found@) =~= paths_view(old(self).found@).push(done.dir@));
        }
    }
}

} // verus!
