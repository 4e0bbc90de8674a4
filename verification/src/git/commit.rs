//! Commits.
use crate::bytes::{begins, find_byte, find_byteset, from, lit, pos_of, pos_of_any, push_all, starts_with, to_vec};
use crate::git::error::GitError;
use crate::git::oid::{all_hex, unhex, ObjectId};
use vstd::prelude::*;

verus! {

/// A part of a commit.
#[derive(Debug)]
pub enum Token {
    Tree(ObjectId),
    Parent(ObjectId),
    Author,
    Committer,
    Encoding,
    ExtraHeader,
    Message,
}

/// What a `Token` stands for.
pub enum TokenView {
    Tree(Seq<u8>),
    Parent(Seq<u8>),
    Author,
    Committer,
    Encoding,
    ExtraHeader,
    Message,
}

impl View for Token {
    type V = TokenView;

    open spec fn view(&self) -> TokenView {
        match *self {
            Token::Tree(id) => TokenView::Tree(id@),
            Token::Parent(id) => TokenView::Parent(id@),
            Token::Author => TokenView::Author,
            Token::Committer => TokenView::Committer,
            Token::Encoding => TokenView::Encoding,
            Token::ExtraHeader => TokenView::ExtraHeader,
            Token::Message => TokenView::Message,
        }
    }
}

impl Token {
    /// The id, where the part has one.
    pub fn try_into_id(self) -> (r: Option<ObjectId>)
        ensures
            match self@ {
                TokenView::Tree(id) => r matches Some(x) && x@ == id,
                TokenView::Parent(id) => r matches Some(x) && x@ == id,
                _ => r is None,
            },
    {
        match self {
            Token::Tree(id) => Some(id),
            Token::Parent(id) => Some(id),
            _ => None,
        }
    }
}

/// Which part of a commit comes next.
#[derive(Debug, Clone, Copy, PartialEq, Eq, Structural)]
pub enum CommitState {
    Tree,
    Parents,
    Author,
    Committer,
    Encoding,
    ExtraHeaders,
    Message,
}

/// The value of the header `name` that `s` begins with, and where the next line begins.
pub open spec fn header_value(s: Seq<u8>, name: Seq<u8>) -> Option<(Seq<u8>, int)> {
    let start = name.len() + 1;
    let nl = pos_of(s, 0x0a, start as int);
    if begins(s, name) && s.len() >= start && s[name.len() as int] == 0x20 && nl < s.len() {
        Some((s.subrange(start as int, nl), nl + 1))
    } else {
        None
    }
}

/// The value of the header `name` that `s` begins with, and where the next line begins.
fn header_field<'a>(s: &'a [u8], name: &[u8]) -> (r: Option<(&'a [u8], usize)>)
    ensures
        r is Some <==> header_value(s@, name@) is Some,
        r matches Some(x) ==> header_value(s@, name@) == Some((x.0@, x.1 as int)) && 0 < x.1 <= s@.len(),
{
    let n = s.len();
    if !starts_with(s, name) {
        return None;
    }
    let m = name.len();
    if n == m || s[m] != 0x20 {
        return None;
    }
    let start = m + 1;
    match line_feed(s, start) {
        None => None,
        Some(nl) => Some((&s[start..nl], nl + 1)),
    }
}

/// The first line feed at or after `i`.
fn line_feed(s: &[u8], i: usize) -> (r: Option<usize>)
    requires
        i <= s@.len(),
    ensures
        r is None <==> pos_of(s@, 0x0a, i as int) >= s@.len(),
        r matches Some(p) ==> p == pos_of(s@, 0x0a, i as int) && i <= p < s@.len() && p < usize::MAX,
{
    let n = s.len();
    let rest = &s[i..n];
    let ghost p = pos_of(rest@, 0x0a, 0);
    proof {
        crate::bytes::lemma_pos_of(rest@, 0x0a, 0);
        assert forall|j: int| i <= j < i + p implies s@[j] != 0x0a by {
            assert(rest@[j - i] == s@[j]);
        }
        assert(p < rest@.len() ==> s@[i + p] == rest@[p]);
        crate::bytes::lemma_pos_of_is(s@, 0x0a, i as int, i + p);
    }
    match find_byte(rest, 0x0a) {
        Some(p) => Some(i + p),
        None => None,
    }
}

/// `b` can stand in the time of a signature.
pub open spec fn time_byte(b: u8) -> bool {
    b == '+' as u8 || b == '-' as u8 || 0x30 <= b <= 0x39 || b == 0x20 || b == 0x09
}

/// Whether `b` can stand in the time of a signature.
pub fn is_time_byte(b: u8) -> (r: bool)
    ensures
        r == time_byte(b),
{
    b == '+' as u8 || b == '-' as u8 || (0x30 <= b && b <= 0x39) || b == 0x20 || b == 0x09
}

/// The last position before `k` that holds `b`, or -1.
pub open spec fn last_pos(s: Seq<u8>, b: u8, k: int) -> int
    decreases k,
{
    if k <= 0 {
        -1
    } else if s[k - 1] == b {
        k - 1
    } else {
        last_pos(s, b, k - 1)
    }
}

/// How many bytes before `k` are `b`, counted from the last.
pub open spec fn run_before(s: Seq<u8>, b: u8, k: int) -> int
    decreases k,
{
    if k <= 0 || s[k - 1] != b {
        0
    } else {
        run_before(s, b, k - 1) + 1
    }
}

/// How many bytes from `i` on are `b`.
pub open spec fn run_from(s: Seq<u8>, b: u8, i: int) -> int
    decreases s.len() - i,
{
    if i < 0 || i >= s.len() || s[i] != b {
        0
    } else {
        run_from(s, b, i + 1) + 1
    }
}

/// Who signed, and when.
#[derive(Clone, Copy, Debug)]
pub struct GixActorSignatureRef<'a> {
    pub name: &'a [u8],
    pub email: &'a [u8],
    pub time: &'a [u8],
}

/// What a signature stands for.
pub struct SignatureView {
    pub name: Seq<u8>,
    pub email: Seq<u8>,
    pub time: Seq<u8>,
}

impl<'a> View for GixActorSignatureRef<'a> {
    type V = SignatureView;

    open spec fn view(&self) -> SignatureView {
        SignatureView { name: self.name@, email: self.email@, time: self.time@ }
    }
}

/// The name without a space at its end.
pub open spec fn without_space(s: Seq<u8>) -> Seq<u8> {
    if s.len() > 0 && s.last() == 0x20 {
        s.drop_last()
    } else {
        s
    }
}

/// The name and the address that the line `s` begins with, and where what follows them begins.
pub open spec fn identity_read(s: Seq<u8>) -> Option<(Seq<u8>, Seq<u8>, int)> {
    let eol = pos_of(s, 0x0a, 0);
    let right = last_pos(s, '>' as u8, eol);
    let left = pos_of(s.take(right), '<' as u8, 0);
    let start = left + run_from(s, '<' as u8, left);
    let end = right - run_before(s, '>' as u8, right);
    if right < 0 || left >= right || start > end {
        None
    } else {
        Some((without_space(s.subrange(0, left)), s.subrange(start, end), right + 1))
    }
}

/// The first position at or after `i` that holds nothing of a time.
pub open spec fn past_time(s: Seq<u8>, i: int) -> int
    decreases s.len() - i,
{
    if 0 <= i < s.len() && time_byte(s[i]) {
        past_time(s, i + 1)
    } else {
        i
    }
}

/// The signature that the line `s` is.
pub open spec fn signature_read(s: Seq<u8>) -> Option<SignatureView> {
    match identity_read(s) {
        None => None,
        Some((name, email, next)) => {
            let start = if next < s.len() && s[next] == 0x20 {
                next + 1
            } else {
                next
            };
            if past_time(s, start) == s.len() {
                Some(SignatureView { name, email, time: from(s, start) })
            } else {
                None
            }
        },
    }
}

/// The name and the address that the line `s` begins with.
fn identity<'a>(s: &'a [u8]) -> (r: Option<(&'a [u8], &'a [u8], usize)>)
    ensures
        r is Some <==> identity_read(s@) is Some,
        r matches Some(x) ==> identity_read(s@) == Some((x.0@, x.1@, x.2 as int)) && x.2 <= s@.len(),
{
    let n = s.len();
    let eol = match line_feed(s, 0) {
        Some(p) => p,
        None => n,
    };
    proof {
        crate::bytes::lemma_pos_of(s@, 0x0a, 0);
    }
    let mut k: usize = eol;
    while k > 0 && s[k - 1] != '>' as u8
        invariant
            k <= eol <= n,
            n == s@.len(),
            last_pos(s@, '>' as u8, eol as int) == last_pos(s@, '>' as u8, k as int),
        decreases k,
    {
        k -= 1;
    }
    if k == 0 {
        return None;
    }
    let right = k - 1;
    let head = &s[0..right];
    assert(head@ =~= s@.take(right as int));
    proof {
        crate::bytes::lemma_pos_of(head@, '<' as u8, 0);
    }
    let left = match find_byte(head, '<' as u8) {
        None => {
            return None;
        },
        Some(p) => p,
    };
    let mut end: usize = right;
    while end > 0 && s[end - 1] == '>' as u8
        invariant
            end <= right < n,
            n == s@.len(),
            run_before(s@, '>' as u8, right as int) == run_before(s@, '>' as u8, end as int) + (right
                - end),
        decreases end,
    {
        end -= 1;
    }
    let mut start: usize = left;
    while start < n && s[start] == '<' as u8
        invariant
            left <= start <= n,
            n == s@.len(),
            run_from(s@, '<' as u8, left as int) == run_from(s@, '<' as u8, start as int) + (start - left),
        decreases n - start,
    {
        start += 1;
    }
    if start > end {
        return None;
    }
    let name = if left > 0 && s[left - 1] == 0x20 {
        &s[0..left - 1]
    } else {
        &s[0..left]
    };
    assert(name@ =~= without_space(s@.subrange(0, left as int)));
    Some((name, &s[start..end], right + 1))
}

/// Reads the line of a signature.
pub fn signature<'a>(s: &'a [u8]) -> (r: Result<GixActorSignatureRef<'a>, GitError>)
    ensures
        r is Ok <==> signature_read(s@) is Some,
        r matches Ok(x) ==> signature_read(s@) == Some(x@),
        r matches Err(e) ==> e is Gen,
{
    let n = s.len();
    let (name, email, next) = match identity(s) {
        None => {
            return Err(GitError::Gen);
        },
        Some(x) => x,
    };
    let start = if next < n && s[next] == 0x20 {
        next + 1
    } else {
        next
    };
    let mut i: usize = start;
    while i < n && is_time_byte(s[i])
        invariant
            start <= i <= n,
            n == s@.len(),
            past_time(s@, start as int) == past_time(s@, i as int),
        decreases n - i,
    {
        i += 1;
    }
    if i < n {
        return Err(GitError::Gen);
    }
    Ok(GixActorSignatureRef { name, email, time: &s[start..n] })
}

/// Where the name of the header ends that `s` begins with; the length of `s` where it has none.
pub open spec fn header_name_end(s: Seq<u8>) -> int {
    let p = pos_of_any(s, seq![0x20u8, 0x0a], 0);
    if 0 < p < s.len() && s[p] == 0x20 {
        p
    } else {
        s.len() as int
    }
}

/// Where the lines end that begin at `i` with a space; `None` where one of them has no end.
pub open spec fn continued(s: Seq<u8>, i: int) -> Option<int>
    decreases s.len() - i,
{
    if i < 0 || i >= s.len() || s[i] != 0x20 {
        Some(i)
    } else {
        let nl = pos_of(s, 0x0a, i);
        if nl >= s.len() || nl < i {
            None
        } else {
            continued(s, nl + 1)
        }
    }
}

/// The lines of `s` from `i` to `end`, each without its first byte.
pub open spec fn unfolded(s: Seq<u8>, i: int, end: int) -> Seq<u8>
    decreases end - i,
{
    let nl = pos_of(s, 0x0a, i);
    if i < 0 || i >= end || nl < i || nl >= end {
        Seq::empty()
    } else {
        s.subrange(i + 1, nl + 1) + unfolded(s, nl + 1, end)
    }
}

/// The name and the value of the header of many lines that `s` begins with, and where the next line begins.
pub open spec fn multi_line_header(s: Seq<u8>) -> Option<(Seq<u8>, Seq<u8>, int)> {
    let name_end = header_name_end(s);
    let first = pos_of(s, 0x0a, name_end + 1);
    if name_end >= s.len() || first >= s.len() {
        None
    } else {
        match continued(s, first + 1) {
            None => None,
            Some(end) => if end == first + 1 {
                None
            } else {
                Some(
                    (
                        s.subrange(0, name_end),
                        s.subrange(name_end + 1, first + 1) + unfolded(s, first + 1, end),
                        end,
                    ),
                )
            },
        }
    }
}

/// The name and the value of the header that `s` begins with, and where the next line begins.
pub open spec fn single_line_header(s: Seq<u8>) -> Option<(Seq<u8>, Seq<u8>, int)> {
    let name_end = header_name_end(s);
    let nl = pos_of(s, 0x0a, name_end + 1);
    if name_end >= s.len() || nl >= s.len() {
        None
    } else {
        Some((s.subrange(0, name_end), s.subrange(name_end + 1, nl), nl + 1))
    }
}

/// Where the name of the header ends that `s` begins with.
fn find_name_end(s: &[u8]) -> (r: Option<usize>)
    ensures
        r is None <==> header_name_end(s@) >= s@.len(),
        r matches Some(p) ==> p == header_name_end(s@) && 0 < p < s@.len(),
{
    let set: [u8; 2] = [0x20, 0x0a];
    let n = s.len();
    assert(set@ =~= seq![0x20u8, 0x0a]);
    proof {
        crate::bytes::lemma_pos_of_any(s@, seq![0x20u8, 0x0a], 0);
        assert(pos_of_any(s@, set@, 0) <= n);
    }
    match find_byteset(s, &set) {
        None => None,
        Some(p) => if p > 0 && s[p] == 0x20 {
            Some(p)
        } else {
            None
        },
    }
}

/// The name and the value of the header of many lines that `s` begins with, and where the next line begins.
pub fn any_header_field_multi_line<'a>(s: &'a [u8]) -> (r: Option<(&'a [u8], Vec<u8>, usize)>)
    ensures
        r is Some <==> multi_line_header(s@) is Some,
        r matches Some(x) ==> multi_line_header(s@) == Some((x.0@, x.1@, x.2 as int)) && 0 < x.2 <= s@.len(),
{
    let n = s.len();
    let name_end = match find_name_end(s) {
        None => {
            return None;
        },
        Some(p) => p,
    };
    let first = match line_feed(s, name_end + 1) {
        None => {
            return None;
        },
        Some(p) => p,
    };
    let begin = first + 1;
    let mut end: usize = begin;
    while end < n && s[end] == 0x20
        invariant
            begin <= end <= n,
            n == s@.len(),
            name_end == header_name_end(s@),
            name_end < n,
            begin == pos_of(s@, 0x0a, name_end + 1) + 1,
            continued(s@, begin as int) == continued(s@, end as int),
        decreases n - end,
    {
        match line_feed(s, end) {
            None => {
                return None;
            },
            Some(nl) => {
                end = nl + 1;
            },
        }
    }
    if end == begin {
        return None;
    }
    let mut out: Vec<u8> = Vec::new();
    push_all(&mut out, &s[name_end + 1..begin]);
    let ghost head = s@.subrange(name_end + 1, begin as int);
    let mut i: usize = begin;
    assert(out@ =~= head);
    assert(out@ + unfolded(s@, begin as int, end as int) =~= head + unfolded(s@, begin as int, end as int));
    proof {
        lemma_continued(s@, begin as int);
    }
    while i < end
        invariant
            begin <= i <= end <= n,
            n == s@.len(),
            continued(s@, i as int) == Some(end as int),
            out@ + unfolded(s@, i as int, end as int) == head + unfolded(s@, begin as int, end as int),
        decreases end - i,
    {
        let ghost before = out@;
        match line_feed(s, i) {
            None => {
                return None;
            },
            Some(nl) => {
                proof {
                    lemma_continued(s@, i as int);
                    lemma_continued(s@, nl + 1);
                }
                push_all(&mut out, &s[i + 1..nl + 1]);
                assert(before + (s@.subrange(i + 1, nl + 1) + unfolded(s@, nl + 1, end as int)) =~= out@
                    + unfolded(s@, nl + 1, end as int));
                i = nl + 1;
            },
        }
    }
    assert(out@ + unfolded(s@, end as int, end as int) =~= out@);
    Some((&s[0..name_end], out, end))
}

/// Lines that go on end behind where they begin.
proof fn lemma_continued(s: Seq<u8>, i: int)
    requires
        0 <= i <= s.len(),
    ensures
        continued(s, i) matches Some(e) ==> i <= e <= s.len() && (e > i ==> s[i] == 0x20 && pos_of(s, 0x0a, i) < e),
    decreases s.len() - i,
{
    if i < s.len() && s[i] == 0x20 {
        crate::bytes::lemma_pos_of(s, 0x0a, i);
        let nl = pos_of(s, 0x0a, i);
        if nl < s.len() {
            lemma_continued(s, nl + 1);
        }
    }
}

/// The name and the value of the header that `s` begins with, and where the next line begins.
pub fn any_header_field<'a>(s: &'a [u8]) -> (r: Option<(&'a [u8], &'a [u8], usize)>)
    ensures
        r is Some <==> single_line_header(s@) is Some,
        r matches Some(x) ==> single_line_header(s@) == Some((x.0@, x.1@, x.2 as int)) && 0 < x.2 <= s@.len(),
{
    let n = s.len();
    let name_end = match find_name_end(s) {
        None => {
            return None;
        },
        Some(p) => p,
    };
    assert(name_end < n);
    match line_feed(s, name_end + 1) {
        None => None,
        Some(nl) => Some((&s[0..name_end], &s[name_end + 1..nl], nl + 1)),
    }
}

/// The id of the header `name` that `s` begins with, and where the next line begins.
pub open spec fn id_header(s: Seq<u8>, name: Seq<u8>) -> Option<(Seq<u8>, int)> {
    match header_value(s, name) {
        Some((v, next)) => if v.len() == 40 && all_hex(v) {
            Some((unhex(v), next))
        } else {
            None
        },
        None => None,
    }
}

/// The id of the header `name` that `s` begins with, and where the next line begins.
fn hex_header(s: &[u8], name: &[u8]) -> (r: Option<(ObjectId, usize)>)
    ensures
        r is Some <==> id_header(s@, name@) is Some,
        r matches Some(x) ==> id_header(s@, name@) == Some((x.0@, x.1 as int)) && 0 < x.1 <= s@.len(),
{
    match header_field(s, name) {
        None => None,
        Some((v, next)) => match ObjectId::hx_from_hex(v) {
            Ok(id) => Some((id, next)),
            Err(_) => None,
        },
    }
}

/// What comes next of the commit `s` in the state `state`: the part, where the rest begins, and the next state.
pub open spec fn token_of(s: Seq<u8>, state: CommitState) -> Option<(TokenView, int, CommitState)>
    decreases state_rank(state),
{
    match state {
        CommitState::Tree => match id_header(s, lit("tree")) {
            Some((id, next)) => Some((TokenView::Tree(id), next, CommitState::Parents)),
            None => None,
        },
        CommitState::Parents => if begins(s, lit("parent ")) {
            match id_header(s, lit("parent")) {
                Some((id, next)) => Some((TokenView::Parent(id), next, CommitState::Parents)),
                None => None,
            }
        } else {
            token_of(s, CommitState::Author)
        },
        CommitState::Author => match header_value(s, lit("author")) {
            Some((v, next)) => if signature_read(v) is Some {
                Some((TokenView::Author, next, CommitState::Committer))
            } else {
                None
            },
            None => None,
        },
        CommitState::Committer => match header_value(s, lit("committer")) {
            Some((v, next)) => if signature_read(v) is Some {
                Some((TokenView::Committer, next, CommitState::Encoding))
            } else {
                None
            },
            None => None,
        },
        CommitState::Encoding => if begins(s, lit("encoding ")) {
            match header_value(s, lit("encoding")) {
                Some((_, next)) => Some((TokenView::Encoding, next, CommitState::ExtraHeaders)),
                None => None,
            }
        } else {
            token_of(s, CommitState::ExtraHeaders)
        },
        CommitState::ExtraHeaders => if s.len() > 0 && s[0] == 0x0a {
            Some((TokenView::Message, 0, CommitState::Message))
        } else {
            match multi_line_header(s) {
                Some((_, _, next)) => Some((TokenView::ExtraHeader, next, CommitState::ExtraHeaders)),
                None => match single_line_header(s) {
                    Some((_, _, next)) => Some((TokenView::ExtraHeader, next, CommitState::ExtraHeaders)),
                    None => None,
                },
            }
        },
        CommitState::Message => Some((TokenView::Message, 0, CommitState::Message)),
    }
}

/// How many states may follow.
pub open spec fn state_rank(state: CommitState) -> int {
    match state {
        CommitState::Tree => 6,
        CommitState::Parents => 5,
        CommitState::Author => 4,
        CommitState::Committer => 3,
        CommitState::Encoding => 2,
        CommitState::ExtraHeaders => 1,
        CommitState::Message => 0,
    }
}

/// Reads what comes next of a commit.
pub fn next_inner(s: &[u8], state: CommitState) -> (r: Option<(Token, usize, CommitState)>)
    ensures
        r is Some <==> token_of(s@, state) is Some,
        r matches Some(x) ==> token_of(s@, state) == Some((x.0@, x.1 as int, x.2)) && x.1 <= s@.len(),
    decreases state_rank(state),
{
    match state {
        CommitState::Tree => match hex_header(s, "tree".as_bytes()) {
            Some((id, next)) => Some((Token::Tree(id), next, CommitState::Parents)),
            None => None,
        },
        CommitState::Parents => if starts_with(s, "parent ".as_bytes()) {
            match hex_header(s, "parent".as_bytes()) {
                Some((id, next)) => Some((Token::Parent(id), next, CommitState::Parents)),
                None => None,
            }
        } else {
            next_inner(s, CommitState::Author)
        },
        CommitState::Author => match header_field(s, "author".as_bytes()) {
            Some((v, next)) => if signature(v).is_ok() {
                Some((Token::Author, next, CommitState::Committer))
            } else {
                None
            },
            None => None,
        },
        CommitState::Committer => match header_field(s, "committer".as_bytes()) {
            Some((v, next)) => if signature(v).is_ok() {
                Some((Token::Committer, next, CommitState::Encoding))
            } else {
                None
            },
            None => None,
        },
        CommitState::Encoding => if starts_with(s, "encoding ".as_bytes()) {
            match header_field(s, "encoding".as_bytes()) {
                Some((_, next)) => Some((Token::Encoding, next, CommitState::ExtraHeaders)),
                None => None,
            }
        } else {
            next_inner(s, CommitState::ExtraHeaders)
        },
        CommitState::ExtraHeaders => if s.len() > 0 && s[0] == 0x0a {
            Some((Token::Message, 0, CommitState::Message))
        } else {
            match any_header_field_multi_line(s) {
                Some((_, _, next)) => Some((Token::ExtraHeader, next, CommitState::ExtraHeaders)),
                None => match any_header_field(s) {
                    Some((_, _, next)) => Some((Token::ExtraHeader, next, CommitState::ExtraHeaders)),
                    None => None,
                },
            }
        },
        CommitState::Message => Some((Token::Message, 0, CommitState::Message)),
    }
}

/// Goes through the parts of a commit.
#[derive(Clone, Copy, Debug)]
pub struct CommitRefIter<'a> {
    pub data: &'a [u8],
    pub state: CommitState,
}

/// The id of the tree of the commit `s`.
pub open spec fn commit_tree(s: Seq<u8>) -> Option<Seq<u8>> {
    match id_header(s, lit("tree")) {
        Some((id, _)) => Some(id),
        None => None,
    }
}

impl<'a> CommitRefIter<'a> {
    /// The parts of the commit `data`.
    pub fn hx_from_bytes(data: &'a [u8]) -> (r: CommitRefIter<'a>)
        ensures
            r.data@ == data@,
            r.state is Tree,
    {
        CommitRefIter { data, state: CommitState::Tree }
    }

    /// The next part. One that cannot be read is an error, and the last.
    pub fn next(&mut self) -> (r: Option<Result<Token, GitError>>)
        ensures
            old(self).data@.len() == 0 ==> r is None && *final(self) == *old(self),
            old(self).data@.len() > 0 ==> match token_of(old(self).data@, old(self).state) {
                None => (r matches Some(Err(e)) && e is Gen) && final(self).data@.len() == 0,
                Some((t, next, state)) => (r matches Some(Ok(x)) && x@ == t) && final(self).data@ == from(
                    old(self).data@,
                    next,
                ) && final(self).state == state,
            },
    {
        if self.data.len() == 0 {
            return None;
        }
        match next_inner(self.data, self.state) {
            Some((t, next, state)) => {
                self.data = &self.data[next..self.data.len()];
                self.state = state;
                Some(Ok(t))
            },
            None => {
                self.data = &self.data[0..0];
                Some(Err(GitError::Gen))
            },
        }
    }

    /// The id of the commit's tree.
    pub fn tree_id(&mut self) -> (r: Result<ObjectId, GitError>)
        requires
            old(self).state is Tree,
        ensures
            r is Ok <==> commit_tree(old(self).data@) is Some,
            r matches Ok(id) ==> commit_tree(old(self).data@) == Some(id@),
            r matches Err(e) ==> e is Gen,
            old(self).data@.len() == 0 ==> *final(self) == *old(self),
            old(self).data@.len() > 0 ==> match token_of(old(self).data@, old(self).state) {
                None => final(self).data@.len() == 0,
                Some((_, next, state)) => final(self).data@ == from(old(self).data@, next) && final(self).state
                    == state,
            },
    {
        proof {
            if self.data@.len() == 0 {
                lemma_empty_has_no_header(self.data@);
            }
        }
        match self.next() {
            None => Err(GitError::Gen),
            Some(Err(e)) => Err(e),
            Some(Ok(t)) => match t.try_into_id() {
                Some(id) => Ok(id),
                None => Err(GitError::Gen),
            },
        }
    }
}

proof fn lemma_empty_has_no_header(s: Seq<u8>)
    requires
        s.len() == 0,
    ensures
        id_header(s, lit("tree")) is None,
{
}

/// Data with a signature in it.
#[derive(Debug)]
pub struct SignedData<'a> {
    pub data: &'a [u8],
    pub start: usize,
    pub end: usize,
}

impl<'a> SignedData<'a> {
    /// The data without the signature.
    pub fn to_bstring(&self) -> (r: Vec<u8>)
        requires
            self.start <= self.data@.len(),
            self.end <= self.data@.len(),
        ensures
            r@ == self.data@.take(self.start as int) + from(self.data@, self.end as int),
    {
        let mut out = to_vec(&self.data[0..self.start]);
        push_all(&mut out, &self.data[self.end..self.data.len()]);
        assert(out@ =~= self.data@.take(self.start as int) + from(self.data@, self.end as int));
        out
    }
}

} // verus!
