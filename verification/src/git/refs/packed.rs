//! The file that holds many references, one to a line.
use crate::bytes::{begins, eq_bytes, find_byte, from, less, lit, pos_of, pos_of_any, push_all, starts_with};
use crate::git::error::GitError;
use crate::git::oid::{all_hex, unhex, ObjectId};
use crate::git::refs::loose::{is_hex_digit, position_from};
use crate::git::refs::name::{valid_complete, valid_partial, validate_reference_name};
use vstd::prelude::*;

verus! {

/// One reference of the file, in parts of the file.
#[derive(Debug, Clone, Copy)]
pub struct PackedReference<'a> {
    pub name: &'a [u8],
    /// The id that it points to, in hexadecimal.
    pub target: &'a [u8],
    /// The id that a tag stands for in the end, in hexadecimal.
    pub object: Option<&'a [u8]>,
}

/// What a `PackedReference` stands for.
pub struct PackedView {
    pub name: Seq<u8>,
    pub target: Seq<u8>,
    pub object: Option<Seq<u8>>,
}

impl<'a> View for PackedReference<'a> {
    type V = PackedView;

    open spec fn view(&self) -> PackedView {
        PackedView {
            name: self.name@,
            target: self.target@,
            object: match self.object {
                Some(o) => Some(o@),
                None => None,
            },
        }
    }
}

impl PackedView {
    /// The parts are what a line can hold.
    pub open spec fn wf(self) -> bool {
        &&& valid_complete(self.name)
        &&& self.target.len() == 40 && all_hex(self.target)
        &&& (self.object matches Some(o) ==> o.len() == 40 && all_hex(o))
    }
}

impl<'a> PackedReference<'a> {
    /// The id that the reference points to.
    pub fn target(&self) -> (r: ObjectId)
        requires
            self@.wf(),
        ensures
            r@ == unhex(self@.target),
    {
        match ObjectId::hx_from_hex(self.target) {
            Ok(id) => id,
            Err(_) => ObjectId::empty_tree(),
        }
    }
}

/// The references that stand for those of `v`.
pub open spec fn packed_views<'a>(v: Seq<PackedReference<'a>>) -> Seq<PackedView> {
    Seq::new(v.len(), |i: int| v[i]@)
}

/// The bytes that end a line.
pub open spec fn line_ends() -> Seq<u8> {
    seq![0x0du8, 0x0a]
}

/// How many bytes end the line at position `i`; none where no line ends there.
pub open spec fn newline_len(s: Seq<u8>, i: int) -> int {
    if 0 <= i && i + 1 < s.len() && s[i] == 0x0d && s[i + 1] == 0x0a {
        2
    } else if 0 <= i < s.len() && s[i] == 0x0a {
        1
    } else {
        0
    }
}

/// An id in hexadecimal stands at position `i`.
pub open spec fn hex_at(s: Seq<u8>, i: int) -> bool {
    0 <= i && i + 40 <= s.len() && all_hex(s.subrange(i, i + 40))
}

/// The line at position `i` with what follows it, where it is a reference.
pub open spec fn reference_at(s: Seq<u8>, i: int) -> Option<(PackedView, int)> {
    let end = pos_of_any(s, line_ends(), i + 41);
    let name = s.subrange(i + 41, end);
    let next = end + newline_len(s, end);
    if !(hex_at(s, i) && i + 40 < s.len() && s[i + 40] == ' ' as u8) {
        None
    } else if newline_len(s, end) == 0 || !valid_complete(name) {
        None
    } else if next < s.len() && s[next] == '^' as u8 {
        if hex_at(s, next + 1) && newline_len(s, next + 41) > 0 {
            Some(
                (
                    PackedView {
                        name,
                        target: s.subrange(i, i + 40),
                        object: Some(s.subrange(next + 1, next + 41)),
                    },
                    next + 41 + newline_len(s, next + 41),
                ),
            )
        } else {
            None
        }
    } else {
        Some((PackedView { name, target: s.subrange(i, i + 40), object: None }, next))
    }
}

/// All references from position `i` on; `None` where a line is none.
pub open spec fn references_from(s: Seq<u8>, i: int) -> Option<Seq<PackedView>>
    decreases s.len() - i,
{
    if i >= s.len() || i < 0 {
        Some(Seq::empty())
    } else {
        match reference_at(s, i) {
            Some((e, next)) => if next > i {
                match references_from(s, next) {
                    Some(rest) => Some(seq![e] + rest),
                    None => None,
                }
            } else {
                None
            },
            None => None,
        }
    }
}

/// How far tags of the file are peeled.
#[derive(Debug, Clone, Copy, PartialEq, Eq, Structural)]
pub enum Peeled {
    Unspecified,
    Partial,
    Fully,
}

/// What the first line of the file says.
#[derive(Debug, Clone, Copy, PartialEq, Eq, Structural)]
pub struct PackedRefsHeader {
    pub peeled: Peeled,
    pub sorted: bool,
}

/// `h` with what the word `w` says.
pub open spec fn told(h: PackedRefsHeader, w: Seq<u8>) -> PackedRefsHeader {
    if w == lit("fully-peeled") {
        PackedRefsHeader { peeled: Peeled::Fully, ..h }
    } else if w == lit("peeled") {
        PackedRefsHeader { peeled: Peeled::Partial, ..h }
    } else if w == lit("sorted") {
        PackedRefsHeader { sorted: true, ..h }
    } else {
        h
    }
}

/// `h` with what the words of `s` from `i` on say.
pub open spec fn told_from(s: Seq<u8>, i: int, h: PackedRefsHeader) -> PackedRefsHeader
    decreases s.len() - i,
{
    let p = pos_of(s, ' ' as u8, i);
    if i < 0 || i > s.len() || p < i {
        h
    } else if p >= s.len() {
        told(h, from(s, i))
    } else {
        told_from(s, p + 1, told(h, s.subrange(i, p)))
    }
}

/// The header of the file with what follows it, where it has one.
pub open spec fn header_of(s: Seq<u8>) -> Option<(PackedRefsHeader, int)> {
    let start = lit("# pack-refs with: ").len() as int;
    let end = pos_of_any(s, line_ends(), start);
    if begins(s, lit("# pack-refs with: ")) && newline_len(s, end) > 0 {
        Some(
            (
                told_from(
                    s.subrange(start, end),
                    0,
                    PackedRefsHeader { peeled: Peeled::Unspecified, sorted: false },
                ),
                end + newline_len(s, end),
            ),
        )
    } else {
        None
    }
}

/// How many bytes end the line at position `i`.
fn newline(s: &[u8], i: usize) -> (r: usize)
    requires
        i <= s@.len(),
    ensures
        r == newline_len(s@, i as int),
{
    if s.len() - i >= 2 && s[i] == 0x0d && s[i + 1] == 0x0a {
        2
    } else if i < s.len() && s[i] == 0x0a {
        1
    } else {
        0
    }
}

/// Whether an id in hexadecimal stands at position `i`.
fn hex_hash_at(s: &[u8], i: usize) -> (r: bool)
    requires
        i <= s@.len(),
    ensures
        r == hex_at(s@, i as int),
{
    if s.len() - i < 40 {
        return false;
    }
    let n = s.len();
    let mut k: usize = 0;
    while k < 40
        invariant
            k <= 40,
            i + 40 <= n,
            n == s@.len(),
            forall|j: int| 0 <= j < k ==> crate::ascii::hex_digit(#[trigger] s@.subrange(i as int, i + 40)[j]),
        decreases 40 - k,
    {
        assert(s@.subrange(i as int, i + 40)[k as int] == s@[i + k]);
        if !is_hex_digit(s[i + k]) {
            return false;
        }
        k += 1;
    }
    true
}

/// The end of the line that position `i` stands in.
fn line_end(s: &[u8], i: usize) -> (r: usize)
    requires
        i <= s@.len(),
    ensures
        r == pos_of_any(s@, line_ends(), i as int),
        i <= r <= s@.len(),
{
    let ends: [u8; 2] = [0x0d, 0x0a];
    assert(ends@ =~= line_ends());
    position_from(s, &ends, i)
}

/// Reads the first line of the file; with it comes the position of the line that follows.
pub fn header(s: &[u8]) -> (r: Option<(PackedRefsHeader, usize)>)
    ensures
        r is Some <==> header_of(s@) is Some,
        r matches Some(h) ==> header_of(s@) == Some((h.0, h.1 as int)) && h.1 <= s@.len(),
{
    let head = "# pack-refs with: ".as_bytes();
    if !starts_with(s, head) {
        return None;
    }
    let start = head.len();
    let end = line_end(s, start);
    let n = newline(s, end);
    if n == 0 {
        return None;
    }
    let total = s.len();
    assert(end + n <= total);
    let next = end + n;
    let traits = &s[start..end];
    let mut h = PackedRefsHeader { peeled: Peeled::Unspecified, sorted: false };
    let mut i: usize = 0;
    let mut more = true;
    while more
        invariant
            i <= traits@.len(),
            traits@ == s@.subrange(start as int, end as int),
            ({
                let first = PackedRefsHeader { peeled: Peeled::Unspecified, sorted: false };
                told_from(traits@, 0, first) == (if more {
                    told_from(traits@, i as int, h)
                } else {
                    h
                })
            }),
        decreases (if more { 1int } else { 0 }), traits@.len() - i,
    {
        let rest = &traits[i..traits.len()];
        let found = find_byte(rest, ' ' as u8);
        let ghost p = pos_of(rest@, ' ' as u8, 0);
        proof {
            crate::bytes::lemma_pos_of(rest@, ' ' as u8, 0);
            assert forall|j: int| i <= j < i + p implies traits@[j] != ' ' as u8 by {
                assert(rest@[j - i] == traits@[j]);
            }
            assert(p < rest@.len() ==> traits@[i + p] == rest@[p]);
            crate::bytes::lemma_pos_of_is(traits@, ' ' as u8, i as int, i + p);
        }
        let stop = match found {
            Some(p) => i + p,
            None => traits.len(),
        };
        let token = &traits[i..stop];
        if eq_bytes(token, "fully-peeled".as_bytes()) {
            h.peeled = Peeled::Fully;
        } else if eq_bytes(token, "peeled".as_bytes()) {
            h.peeled = Peeled::Partial;
        } else if eq_bytes(token, "sorted".as_bytes()) {
            h.sorted = true;
        }
        match found {
            Some(_) => {
                i = stop + 1;
            },
            None => {
                assert(token@ == from(traits@, i as int));
                more = false;
            },
        }
    }
    Some((h, next))
}

/// Reads the reference at position `i`; with it comes the position of the line that follows.
pub fn reference<'a>(s: &'a [u8], i: usize) -> (r: Option<(PackedReference<'a>, usize)>)
    requires
        i <= s@.len(),
    ensures
        r is Some <==> reference_at(s@, i as int) is Some,
        r matches Some(e) ==> {
            &&& reference_at(s@, i as int) == Some((e.0@, e.1 as int))
            &&& i < e.1 <= s@.len()
            &&& e.0@.wf()
        },
{
    if !hex_hash_at(s, i) {
        return None;
    }
    if s.len() - i <= 40 || s[i + 40] != ' ' as u8 {
        return None;
    }
    let end = line_end(s, i + 41);
    let n = newline(s, end);
    if n == 0 {
        return None;
    }
    let name = &s[i + 41..end];
    if validate_reference_name(name).is_err() {
        return None;
    }
    let next = end + n;
    let target = &s[i..i + 40];
    if next < s.len() && s[next] == '^' as u8 {
        if !hex_hash_at(s, next + 1) {
            return None;
        }
        let m = newline(s, next + 41);
        if m == 0 {
            return None;
        }
        Some((PackedReference { name, target, object: Some(&s[next + 1..next + 41]) }, next + 41 + m))
    } else {
        Some((PackedReference { name, target, object: None }, next))
    }
}

/// Goes through the references of a file.
#[derive(Debug)]
pub struct Iter<'a> {
    pub data: &'a [u8],
    pub cursor: usize,
    pub prefix: Option<Vec<u8>>,
}

/// Where the references of `s` begin; `None` where its header cannot be read.
pub open spec fn references_start(s: Seq<u8>) -> Option<int> {
    if s.len() > 0 && s[0] == '#' as u8 {
        match header_of(s) {
            Some((_, next)) => Some(next),
            None => None,
        }
    } else {
        Some(0)
    }
}

/// The position after the next line feed.
pub open spec fn next_line(s: Seq<u8>, i: int) -> int {
    let p = pos_of(s, 0x0a, i);
    if p < s.len() {
        p + 1
    } else {
        s.len() as int
    }
}

impl<'a> Iter<'a> {
    pub open spec fn wf(self) -> bool {
        self.cursor <= self.data@.len()
    }

    /// The references of `packed`.
    pub fn new(packed: &'a [u8]) -> (r: Result<Iter<'a>, GitError>)
        ensures
            r is Ok <==> references_start(packed@) is Some,
            r matches Ok(it) ==> it.wf() && it.data@ == packed@ && it.prefix is None
                && references_start(packed@) == Some(it.cursor as int),
            r matches Err(e) ==> e is Gen,
    {
        Iter::new_with_prefix(packed, None)
    }

    /// The references of `packed` up to the first that does not begin with `prefix`.
    pub fn new_with_prefix(packed: &'a [u8], prefix: Option<Vec<u8>>) -> (r: Result<Iter<'a>, GitError>)
        ensures
            r is Ok <==> references_start(packed@) is Some,
            r matches Ok(it) ==> it.wf() && it.data@ == packed@ && it.prefix == prefix
                && references_start(packed@) == Some(it.cursor as int),
            r matches Err(e) ==> e is Gen,
    {
        if packed.len() > 0 && packed[0] == '#' as u8 {
            match header(packed) {
                None => Err(GitError::Gen),
                Some((_, next)) => Ok(Iter { data: packed, cursor: next, prefix }),
            }
        } else {
            Ok(Iter { data: packed, cursor: 0, prefix })
        }
    }

    /// The next reference. A line that is none gives an error and is passed over. The first reference
    /// without the prefix ends it all.
    pub fn next(&mut self) -> (r: Option<Result<PackedReference<'a>, GitError>>)
        requires
            old(self).wf(),
        ensures
            final(self).wf(),
            final(self).data == old(self).data,
            final(self).prefix == old(self).prefix,
            ({
                let s = old(self).data@;
                let i = old(self).cursor as int;
                if i >= s.len() {
                    r is None && final(self).cursor == i
                } else {
                    match reference_at(s, i) {
                        Some((e, next)) => if old(self).prefix matches Some(p) && !begins(e.name, p@) {
                            r is None && final(self).cursor == s.len()
                        } else {
                            &&& r matches Some(Ok(x)) && x@ == e && e.wf()
                            &&& final(self).cursor == next && i < next <= s.len()
                        },
                        None => (r matches Some(Err(e)) && e is Gen) && final(self).cursor
                            == next_line(s, i) && i < next_line(s, i),
                    }
                }
            }),
    {
        if self.cursor >= self.data.len() {
            return None;
        }
        match reference(self.data, self.cursor) {
            Some((e, next)) => {
                self.cursor = next;
                let other = match &self.prefix {
                    Some(p) => !starts_with(e.name, p.as_slice()),
                    None => false,
                };
                if other {
                    self.cursor = self.data.len();
                    return None;
                }
                Some(Ok(e))
            },
            None => {
                let i = self.cursor;
                let rest = &self.data[i..self.data.len()];
                let ghost p = pos_of(rest@, 0x0a, 0);
                proof {
                    crate::bytes::lemma_pos_of(rest@, 0x0a, 0);
                    assert forall|j: int| i <= j < i + p implies self.data@[j] != 0x0a by {
                        assert(rest@[j - i] == self.data@[j]);
                    }
                    assert(p < rest@.len() ==> self.data@[i + p] == rest@[p]);
                    crate::bytes::lemma_pos_of_is(self.data@, 0x0a, i as int, i + p);
                }
                self.cursor = match find_byte(rest, 0x0a) {
                    Some(p) => i + p + 1,
                    None => self.data.len(),
                };
                Some(Err(GitError::Gen))
            },
        }
    }
}

/// `b` is `a` in the order of the names, those of one name in the order that they had.
pub open spec fn stable_sort_of(a: Seq<PackedView>, b: Seq<PackedView>) -> bool {
    &&& forall|i: int, j: int| 0 <= i < j < b.len() ==> !less(#[trigger] b[j].name, #[trigger] b[i].name)
    &&& forall|name: Seq<u8>| #[trigger] of_name(a, name) == of_name(b, name)
}

/// Those of `s` with the given name.
pub open spec fn of_name(s: Seq<PackedView>, name: Seq<u8>) -> Seq<PackedView>
    decreases s.len(),
{
    if s.len() == 0 {
        s
    } else if s.last().name == name {
        of_name(s.drop_last(), name).push(s.last())
    } else {
        of_name(s.drop_last(), name)
    }
}

/// `[T]::sort_by_key` puts the references in the order of their names and keeps the order of those
/// that have the same name; what they hold stays.
#[verifier::external_body]
fn sort_by_name<'a>(v: &mut Vec<PackedReference<'a>>)
    ensures
        stable_sort_of(packed_views(old(v)@), packed_views(final(v)@)),
{
    v.sort_by_key(|e| e.name);
}

/// The lines that write the reference `e`.
pub open spec fn written(e: PackedView) -> Seq<u8> {
    e.target + seq![' ' as u8] + e.name + seq![0x0au8] + (match e.object {
        Some(o) => seq!['^' as u8] + o + seq![0x0au8],
        None => Seq::<u8>::empty(),
    })
}

/// The lines that write the references `s`.
pub open spec fn serialized(s: Seq<PackedView>) -> Seq<u8>
    decreases s.len(),
{
    if s.len() == 0 {
        Seq::empty()
    } else {
        serialized(s.drop_last()) + written(s.last())
    }
}

/// `data` writes the references `es` in the order of their names.
pub open spec fn writes_sorted(es: Seq<PackedView>, data: Seq<u8>) -> bool {
    exists|sorted: Seq<PackedView>| #[trigger] stable_sort_of(es, sorted) && data == serialized(sorted)
}

/// The contents of the file, with its references in the order of their names.
#[derive(Debug)]
pub struct PackedBuffer {
    pub data: Vec<u8>,
    pub offset: usize,
}

/// What the file `data` gives: nothing where it cannot be read.
pub open spec fn opened(data: Seq<u8>) -> Option<(Seq<PackedView>, bool, int)> {
    let start = references_start(data);
    if start is None {
        None
    } else if data.len() > 0 && data[0] == '#' as u8 && (header_of(data)->0).0.sorted {
        Some((Seq::empty(), true, start->0))
    } else {
        let rest = from(data, start->0);
        match references_start(rest) {
            None => None,
            Some(i) => match references_from(rest, i) {
                None => None,
                Some(es) => Some((es, false, 0)),
            },
        }
    }
}

/// All references of `data`.
fn collect<'a>(data: &'a [u8]) -> (r: Result<Vec<PackedReference<'a>>, GitError>)
    ensures
        r matches Ok(v) ==> references_start(data@) matches Some(i) && references_from(data@, i) == Some(
            packed_views(v@),
        ),
        r matches Err(e) ==> e is Gen && (references_start(data@) matches Some(i) ==> references_from(
            data@,
            i,
        ) is None),
{
    let mut it = match Iter::new(data) {
        Ok(it) => it,
        Err(e) => {
            return Err(e);
        },
    };
    let mut out: Vec<PackedReference<'a>> = Vec::new();
    let ghost first = it.cursor as int;
    let mut more = true;
    assert(packed_views(out@) + Seq::<PackedView>::empty() =~= packed_views(out@));
    while more
        invariant
            it.wf(),
            it.data@ == data@,
            it.prefix is None,
            references_start(data@) == Some(first),
            more ==> (references_from(data@, first) is Some <==> references_from(
                data@,
                it.cursor as int,
            ) is Some),
            more ==> (references_from(data@, it.cursor as int) matches Some(rest)
                ==> references_from(data@, first) == Some(packed_views(out@) + rest)),
            !more ==> references_from(data@, first) == Some(packed_views(out@)),
        decreases (if more { 1int } else { 0 }), data@.len() - it.cursor,
    {
        let ghost before = packed_views(out@);
        let ghost at = it.cursor as int;
        proof {
            reveal_with_fuel(references_from, 2);
        }
        match it.next() {
            None => {
                assert(before + Seq::<PackedView>::empty() =~= before);
                more = false;
            },
            Some(Ok(e)) => {
                out.push(e);
                proof {
                    assert(packed_views(out@) =~= before.push(e@));
                    if let Some(rest) = references_from(data@, it.cursor as int) {
                        assert(before + (seq![e@] + rest) =~= packed_views(out@) + rest);
                    }
                }
            },
            Some(Err(e)) => {
                return Err(e);
            },
        }
    }
    Ok(out)
}

/// Appends the lines of one reference.
fn push_reference(out: &mut Vec<u8>, e: &PackedReference<'_>)
    ensures
        final(out)@ == old(out)@ + written(e@),
{
    push_all(out, e.target);
    out.push(' ' as u8);
    push_all(out, e.name);
    out.push(0x0a);
    match e.object {
        Some(o) => {
            out.push('^' as u8);
            push_all(out, o);
            out.push(0x0a);
        },
        None => {},
    }
    assert(out@ =~= old(out)@ + written(e@));
}

impl PackedBuffer {
    /// Takes the contents of the file. A file that says that it is sorted is kept; all others are
    /// sorted.
    pub fn open_with_backing(data: Vec<u8>) -> (r: Result<PackedBuffer, GitError>)
        ensures
            r is Ok <==> opened(data@) is Some,
            r matches Err(e) ==> e is Gen,
            r matches Ok(b) ==> if (opened(data@)->0).1 {
                b.data@ == data@ && b.offset == (opened(data@)->0).2 && b.offset <= data@.len()
            } else {
                b.offset == 0 && writes_sorted((opened(data@)->0).0, b.data@)
            },
    {
        let mut offset: usize = 0;
        if data.len() > 0 && data[0] == '#' as u8 {
            match header(data.as_slice()) {
                None => {
                    return Err(GitError::Gen);
                },
                Some((h, next)) => {
                    if h.sorted {
                        return Ok(PackedBuffer { data, offset: next });
                    }
                    offset = next;
                },
            }
        }
        let rest = &data.as_slice()[offset..data.len()];
        assert(rest@ == from(data@, references_start(data@)->0));
        let mut entries = match collect(rest) {
            Ok(v) => v,
            Err(e) => {
                return Err(e);
            },
        };
        let ghost es = packed_views(entries@);
        sort_by_name(&mut entries);
        assert(opened(data@) == Some((es, false, 0int)));
        let mut out: Vec<u8> = Vec::new();
        let ghost views = packed_views(entries@);
        let mut i: usize = 0;
        while i < entries.len()
            invariant
                stable_sort_of(es, views),
                i <= entries@.len(),
                views == packed_views(entries@),
                out@ == serialized(views.take(i as int)),
            decreases entries.len() - i,
        {
            push_reference(&mut out, &entries[i]);
            proof {
                assert(views.take(i + 1).drop_last() =~= views.take(i as int));
                assert(views.take(i + 1).last() == entries@[i as int]@);
            }
            i += 1;
        }
        assert(views.take(i as int) =~= views);
        assert(stable_sort_of(es, views) && out@ == serialized(views));
        Ok(PackedBuffer { data: out, offset: 0 })
    }

    /// The lines of the references.
    pub fn hx_as_ref(&self) -> (r: &[u8])
        requires
            self.offset <= self.data@.len(),
        ensures
            r@ == from(self.data@, self.offset as int),
    {
        &self.data.as_slice()[self.offset..self.data.len()]
    }
}

/// Every reference that is read from lines is what a line can hold.
proof fn lemma_read_references_wf(s: Seq<u8>, i: int)
    requires
        0 <= i,
    ensures
        references_from(s, i) matches Some(es) ==> forall|k: int|
            0 <= k < es.len() ==> (#[trigger] es[k]).wf(),
    decreases s.len() - i,
{
    if i < s.len() {
        if let Some((e, next)) = reference_at(s, i) {
            if next > i {
                lemma_read_references_wf(s, next);
                assert(e.wf());
            }
        }
    }
}

/// What has the name of one of `s` and is among those of that name is one of `s`.
proof fn lemma_of_name(s: Seq<PackedView>, name: Seq<u8>)
    ensures
        forall|k: int|
            0 <= k < of_name(s, name).len() ==> s.contains(#[trigger] of_name(s, name)[k]),
        forall|k: int|
            0 <= k < s.len() && (#[trigger] s[k]).name == name ==> of_name(s, name).contains(s[k]),
    decreases s.len(),
{
    if s.len() > 0 {
        let t = s.drop_last();
        lemma_of_name(t, name);
        let mine = of_name(s, name);
        let theirs = of_name(t, name);
        assert forall|k: int| 0 <= k < mine.len() implies s.contains(#[trigger] mine[k]) by {
            if k < theirs.len() {
                assert(mine[k] == theirs[k]);
                let w = choose|w: int| 0 <= w < t.len() && t[w] == theirs[k];
                assert(s[w] == mine[k]);
            } else {
                assert(mine[k] == s[s.len() - 1]);
            }
        }
        assert forall|k: int| 0 <= k < s.len() && (#[trigger] s[k]).name == name implies mine.contains(
            s[k],
        ) by {
            if k < t.len() {
                assert(t[k] == s[k]);
                let w = choose|w: int| 0 <= w < theirs.len() && theirs[w] == s[k];
                assert(mine[w] == s[k]);
            } else {
                assert(mine[mine.len() - 1] == s[k]);
            }
        }
    }
}

/// Sorting keeps what every reference is.
proof fn lemma_sorted_wf(a: Seq<PackedView>, b: Seq<PackedView>)
    requires
        stable_sort_of(a, b),
        forall|k: int| 0 <= k < a.len() ==> (#[trigger] a[k]).wf(),
    ensures
        forall|k: int| 0 <= k < b.len() ==> (#[trigger] b[k]).wf(),
{
    assert forall|k: int| 0 <= k < b.len() implies (#[trigger] b[k]).wf() by {
        let name = b[k].name;
        lemma_of_name(a, name);
        lemma_of_name(b, name);
        assert(of_name(a, name) == of_name(b, name));
        assert(of_name(b, name).contains(b[k]));
        let w = choose|w: int| 0 <= w < of_name(b, name).len() && of_name(b, name)[w] == b[k];
        assert(a.contains(of_name(a, name)[w]));
        let v = choose|v: int| 0 <= v < a.len() && a[v] == of_name(a, name)[w];
        assert(a[v].wf());
    }
}

/// What stands where in the lines of `e`.
proof fn lemma_written_parts(e: PackedView)
    requires
        e.target.len() == 40,
    ensures
        ({
            let w = written(e);
            let n = e.name.len() as int;
            &&& forall|k: int| 0 <= k < 40 ==> w[k] == #[trigger] e.target[k]
            &&& w[40] == ' ' as u8
            &&& forall|k: int| 0 <= k < n ==> w[41 + k] == #[trigger] e.name[k]
            &&& w[41 + n] == 0x0a
            &&& e.object is None ==> w.len() == 42 + n
            &&& e.object matches Some(o) ==> w.len() == 44 + n + o.len() && w[42 + n] == '^' as u8
                && w[43 + n + o.len()] == 0x0a && forall|k: int|
                0 <= k < o.len() ==> w[43 + n + k] == #[trigger] o[k]
        }),
{
}

/// What stands in `s` from position `i` on, part by part.
proof fn lemma_written_at(s: Seq<u8>, i: int, e: PackedView)
    requires
        0 <= i,
        e.target.len() == 40,
        e.object matches Some(o) ==> o.len() == 40,
        i + written(e).len() <= s.len(),
        s.subrange(i, i + written(e).len()) == written(e),
    ensures
        ({
            let n = e.name.len() as int;
            &&& i + 42 + n <= s.len()
            &&& s.subrange(i, i + 40) == e.target
            &&& s[i + 40] == ' ' as u8
            &&& s.subrange(i + 41, i + 41 + n) == e.name
            &&& s[i + 41 + n] == 0x0a
            &&& e.object is None ==> written(e).len() == 42 + n
            &&& e.object matches Some(o) ==> written(e).len() == 84 + n && i + 84 + n <= s.len() && s[i
                + 42 + n] == '^' as u8 && s[i + 83 + n] == 0x0a && s.subrange(i + 43 + n, i + 83 + n)
                == o
        }),
{
    lemma_written_parts(e);
    let w = written(e);
    let n = e.name.len() as int;
    assert forall|k: int| 0 <= k < w.len() implies s[i + k] == #[trigger] w[k] by {
        assert(s.subrange(i, i + w.len())[k] == w[k]);
    }
    assert(s.subrange(i, i + 40) =~= e.target) by {
        assert forall|k: int| 0 <= k < 40 implies s[i + k] == #[trigger] e.target[k] by {
            assert(w[k] == e.target[k]);
        }
    }
    assert(s.subrange(i + 41, i + 41 + n) =~= e.name) by {
        assert forall|k: int| 0 <= k < n implies s[i + 41 + k] == #[trigger] e.name[k] by {
            assert(w[41 + k] == e.name[k]);
            assert(s[i + (41 + k)] == w[41 + k]);
        }
    }
    assert(s[i + (41 + n)] == w[41 + n]);
    if let Some(o) = e.object {
        assert(s[i + (42 + n)] == w[42 + n]);
        assert(s[i + (83 + n)] == w[83 + n]);
        assert(s.subrange(i + 43 + n, i + 83 + n) =~= o) by {
            assert forall|k: int| 0 <= k < 40 implies s[i + 43 + n + k] == #[trigger] o[k] by {
                assert(w[43 + n + k] == o[k]);
                assert(s[i + (43 + n + k)] == w[43 + n + k]);
            }
        }
    }
}

/// No line ends within a valid name.
proof fn lemma_name_in_line(name: Seq<u8>)
    requires
        valid_partial(name),
    ensures
        forall|k: int| 0 <= k < name.len() ==> !line_ends().contains(#[trigger] name[k]),
{
    assert forall|k: int| 0 <= k < name.len() implies !line_ends().contains(#[trigger] name[k]) by {
        assert(!crate::git::refs::name::forbidden(name[k]));
    }
}

/// Where the line of a reference with the name `name` ends.
proof fn lemma_line_end(s: Seq<u8>, i: int, name: Seq<u8>)
    requires
        0 <= i,
        i + 42 + name.len() <= s.len(),
        s.subrange(i + 41, i + 41 + name.len()) == name,
        s[i + 41 + name.len()] == 0x0a,
        valid_partial(name),
    ensures
        pos_of_any(s, line_ends(), i + 41) == i + 41 + name.len(),
        newline_len(s, i + 41 + name.len()) == 1,
{
    lemma_name_in_line(name);
    let end = i + 41 + name.len();
    assert forall|k: int| i + 41 <= k < end implies !line_ends().contains(#[trigger] s[k]) by {
        assert(s.subrange(i + 41, end)[k - i - 41] == name[k - i - 41]);
    }
    assert(line_ends()[1] == 0x0a);
    crate::bytes::lemma_pos_of_any_is(s, line_ends(), i + 41, end);
}

/// The lines of `e` at position `i` of `s`, which something other than `^` follows, are read as `e`.
proof fn lemma_written_is_read(s: Seq<u8>, i: int, e: PackedView)
    requires
        0 <= i,
        e.wf(),
        i + written(e).len() <= s.len(),
        s.subrange(i, i + written(e).len()) == written(e),
        i + written(e).len() == s.len() || s[i + written(e).len()] != '^' as u8,
    ensures
        reference_at(s, i) == Some((e, i + written(e).len())),
{
    lemma_written_at(s, i, e);
    lemma_line_end(s, i, e.name);
    let n = e.name.len() as int;
    if let Some(o) = e.object {
        assert(newline_len(s, i + 83 + n) == 1);
        lemma_read_with_object(s, i, e, o);
    } else {
        lemma_read_alone(s, i, e);
    }
}

/// A line that something other than `^` follows is read as it says.
proof fn lemma_read_alone(s: Seq<u8>, i: int, e: PackedView)
    requires
        ({
            let n = e.name.len() as int;
            &&& 0 <= i && i + 42 + n <= s.len()
            &&& hex_at(s, i) && s.subrange(i, i + 40) == e.target && s[i + 40] == ' ' as u8
            &&& pos_of_any(s, line_ends(), i + 41) == i + 41 + n
            &&& newline_len(s, i + 41 + n) == 1
            &&& s.subrange(i + 41, i + 41 + n) == e.name && valid_complete(e.name)
            &&& e.object is None
            &&& i + 42 + n == s.len() || s[i + 42 + n] != '^' as u8
        }),
    ensures
        reference_at(s, i) == Some((e, i + 42 + e.name.len())),
{
    let n = e.name.len() as int;
    let next = i + 41 + n + newline_len(s, i + 41 + n);
    assert(next == i + 42 + n);
    assert(!(next < s.len() && s[next] == '^' as u8));
}

/// A line with the line of its object is read as they say.
proof fn lemma_read_with_object(s: Seq<u8>, i: int, e: PackedView, o: Seq<u8>)
    requires
        ({
            let n = e.name.len() as int;
            &&& 0 <= i && i + 84 + n <= s.len()
            &&& hex_at(s, i) && s.subrange(i, i + 40) == e.target && s[i + 40] == ' ' as u8
            &&& pos_of_any(s, line_ends(), i + 41) == i + 41 + n
            &&& newline_len(s, i + 41 + n) == 1
            &&& s.subrange(i + 41, i + 41 + n) == e.name && valid_complete(e.name)
            &&& e.object == Some(o)
            &&& s[i + 42 + n] == '^' as u8
            &&& hex_at(s, i + 43 + n) && newline_len(s, i + 83 + n) == 1
            &&& s.subrange(i + 43 + n, i + 83 + n) == o
        }),
    ensures
        reference_at(s, i) == Some((e, i + 84 + e.name.len())),
{
    let n = e.name.len() as int;
    let next = i + 41 + n + newline_len(s, i + 41 + n);
    assert(next == i + 42 + n);
    assert(next + 1 == i + 43 + n && next + 41 == i + 83 + n);
}

/// The lines of all but the first reference follow those of the first.
proof fn lemma_serialized_front(es: Seq<PackedView>)
    requires
        es.len() > 0,
    ensures
        serialized(es) == written(es[0]) + serialized(es.drop_first()),
    decreases es.len(),
{
    if es.len() == 1 {
        assert(es.drop_last() =~= Seq::<PackedView>::empty());
        assert(es.drop_first() =~= Seq::<PackedView>::empty());
        assert(serialized(es.drop_last()) =~= Seq::<u8>::empty());
        assert(serialized(es) =~= written(es[0]) + serialized(es.drop_first()));
    } else {
        lemma_serialized_front(es.drop_last());
        assert(es.drop_last().drop_first() =~= es.drop_first().drop_last());
        assert(es.drop_first().last() == es.last());
        assert(serialized(es) =~= written(es[0]) + serialized(es.drop_first()));
    }
}

/// Lines begin with no `^`.
proof fn lemma_serialized_start(es: Seq<PackedView>)
    requires
        es.len() > 0,
        es[0].wf(),
    ensures
        serialized(es).len() > 0,
        serialized(es)[0] != '^' as u8,
{
    lemma_serialized_front(es);
    assert(written(es[0])[0] == es[0].target[0]);
    assert(crate::ascii::hex_digit(es[0].target[0]));
}

/// The lines of the first reference stand at position `i`, and those of the others behind them.
proof fn lemma_serialized_at(s: Seq<u8>, i: int, w: Seq<u8>, others: Seq<u8>)
    requires
        0 <= i <= s.len(),
        from(s, i) == w + others,
    ensures
        i + w.len() <= s.len(),
        s.subrange(i, i + w.len()) == w,
        from(s, (i + w.len()) as int) == others,
{
    let next = i + w.len();
    assert(from(s, i).len() == w.len() + others.len());
    assert(s.subrange(i, next) =~= w) by {
        assert forall|k: int| 0 <= k < w.len() implies s[i + k] == w[k] by {
            assert(from(s, i)[k] == w[k]);
        }
    }
    assert(from(s, next) =~= others) by {
        assert forall|k: int| 0 <= k < others.len() implies s[next + k] == others[k] by {
            assert(from(s, i)[w.len() + k] == others[k]);
        }
    }
}

/// A reference with the references that follow it.
proof fn lemma_references_step(s: Seq<u8>, i: int, e: PackedView, next: int, rest: Seq<PackedView>)
    requires
        0 <= i < s.len(),
        i < next <= s.len(),
        reference_at(s, i) == Some((e, next)),
        references_from(s, next) == Some(rest),
    ensures
        references_from(s, i) == Some(seq![e] + rest),
{
}

/// Lines are not empty.
proof fn lemma_written_len(e: PackedView)
    ensures
        written(e).len() > 0,
{
}

/// Lines that begin at position `i` and end `s` are read as what they write.
proof fn lemma_serialized_is_read(s: Seq<u8>, i: int, es: Seq<PackedView>)
    requires
        0 <= i <= s.len(),
        from(s, i) == serialized(es),
        forall|k: int| 0 <= k < es.len() ==> (#[trigger] es[k]).wf(),
    ensures
        references_from(s, i) == Some(es),
    decreases es.len(),
{
    if es.len() == 0 {
        assert(from(s, i).len() == 0);
        assert(es =~= Seq::<PackedView>::empty());
    } else {
        lemma_serialized_front(es);
        let e = es[0];
        let rest = es.drop_first();
        let next = i + written(e).len();
        lemma_written_len(e);
        lemma_serialized_at(s, i, written(e), serialized(rest));
        if rest.len() > 0 {
            assert(rest[0] == es[1]);
            lemma_serialized_start(rest);
            assert(s[next] == from(s, next)[0]);
        } else {
            assert(serialized(rest).len() == 0);
        }
        lemma_written_is_read(s, i, e);
        assert forall|k: int| 0 <= k < rest.len() implies (#[trigger] rest[k]).wf() by {
            assert(rest[k] == es[k + 1]);
        }
        lemma_serialized_is_read(s, next, rest);
        lemma_references_step(s, i, e, next, rest);
        assert(seq![e] + rest =~= es);
    }
}

/// Writing references and reading the lines gives the references back.
pub proof fn law_written_references_read_back(es: Seq<PackedView>)
    requires
        forall|k: int| 0 <= k < es.len() ==> (#[trigger] es[k]).wf(),
    ensures
        references_start(serialized(es)) == Some(0int),
        references_from(serialized(es), 0) == Some(es),
{
    let s = serialized(es);
    assert(from(s, 0) =~= s);
    lemma_serialized_is_read(s, 0, es);
    if es.len() > 0 {
        lemma_serialized_front(es);
        assert(written(es[0])[0] == es[0].target[0]);
        assert(crate::ascii::hex_digit(es[0].target[0]));
    }
}

/// A file that had to be sorted holds the references that it held, in the order of their names.
pub proof fn law_opened_file_keeps_references(data: Seq<u8>, sorted: Seq<PackedView>)
    requires
        opened(data) matches Some((es, false, _)) && stable_sort_of(es, sorted),
    ensures
        references_from(serialized(sorted), 0) == Some(sorted),
        forall|name: Seq<u8>| #[trigger] of_name((opened(data)->0).0, name) == of_name(sorted, name),
{
    let start = references_start(data)->0;
    let rest = from(data, start);
    let i = references_start(rest)->0;
    assert(0 <= i) by {
        if rest.len() > 0 && rest[0] == '#' as u8 {
            let b = lit("# pack-refs with: ").len() as int;
            crate::bytes::lemma_pos_of_any(rest, line_ends(), b);
        }
    }
    lemma_read_references_wf(rest, i);
    lemma_sorted_wf((opened(data)->0).0, sorted);
    law_written_references_read_back(sorted);
}

} // verus!
