//! The entries of a pack: their headers, how they are written and how they are read.
use crate::bytes::{from, push_all};
use crate::git::error::GitError;
use crate::git::object::ObjectKind;
use crate::git::oid::ObjectId;
use crate::git::pack::delta::{lemma_varint_end, lemma_varint_split, two_64, varint_end, varint_value};
use vstd::arithmetic::power::{lemma_pow0, lemma_pow1, lemma_pow_adds, pow};
use vstd::prelude::*;

verus! {

pub const COMMIT: u8 = 1;

pub const TREE: u8 = 2;

pub const BLOB: u8 = 3;

pub const OFS_DELTA: u8 = 6;

pub const REF_DELTA: u8 = 7;

/// What an entry of a pack holds.
#[derive(Clone, Copy, Debug)]
pub enum Header {
    Commit,
    Tree,
    Blob,
    /// A delta to the object `base_id`.
    RefDelta { base_id: ObjectId },
    /// A delta to the object that begins `base_distance` bytes before the entry.
    OfsDelta { base_distance: u64 },
}

/// What an entry of a pack holds, its base by the bytes of its id.
pub enum HeaderView {
    Commit,
    Tree,
    Blob,
    RefDelta { base_id: Seq<u8> },
    OfsDelta { base_distance: u64 },
}

impl View for Header {
    type V = HeaderView;

    open spec fn view(&self) -> HeaderView {
        match self {
            Header::Commit => HeaderView::Commit,
            Header::Tree => HeaderView::Tree,
            Header::Blob => HeaderView::Blob,
            Header::RefDelta { base_id } => HeaderView::RefDelta { base_id: base_id@ },
            Header::OfsDelta { base_distance } => HeaderView::OfsDelta {
                base_distance: *base_distance,
            },
        }
    }
}

impl HeaderView {
    /// The number that stands for the kind of entry.
    pub open spec fn type_id(self) -> u8 {
        match self {
            HeaderView::Commit => COMMIT,
            HeaderView::Tree => TREE,
            HeaderView::Blob => BLOB,
            HeaderView::RefDelta { .. } => REF_DELTA,
            HeaderView::OfsDelta { .. } => OFS_DELTA,
        }
    }

    /// The entry is a delta.
    pub open spec fn is_delta(self) -> bool {
        self is RefDelta || self is OfsDelta
    }

    /// The kind of object that the entry holds, where it is no delta.
    pub open spec fn kind(self) -> Option<ObjectKind> {
        match self {
            HeaderView::Commit => Some(ObjectKind::Commit),
            HeaderView::Tree => Some(ObjectKind::Tree),
            HeaderView::Blob => Some(ObjectKind::Blob),
            _ => None,
        }
    }
}

/// `m` in groups of seven bits, the lowest first, all but the last marked by 128.
pub open spec fn varint_bytes(m: nat) -> Seq<u8>
    decreases m,
{
    if m < 128 {
        seq![m as u8]
    } else {
        seq![(128 + m % 128) as u8] + varint_bytes(m / 128)
    }
}

/// The type and the size that begin an entry.
pub open spec fn type_and_size_bytes(type_id: u8, size: nat) -> Seq<u8> {
    let first = type_id * 16 + size % 16;
    if size < 16 {
        seq![first as u8]
    } else {
        seq![(128 + first) as u8] + varint_bytes(size / 16)
    }
}

/// The type and the size that begin an entry, and how many bytes they take: at most ten.
pub open spec fn type_and_size(d: Seq<u8>) -> Option<(u8, u64, int)> {
    if d.len() == 0 {
        None
    } else {
        let end = varint_end(d, 0);
        if end < d.len() && end < 10 {
            Some(
                (
                    ((d[0] as int / 16) % 8) as u8,
                    ((d[0] as int % 16 + 16 * varint_value(d, 1, end)) % two_64()) as u64,
                    end + 1,
                ),
            )
        } else {
            None
        }
    }
}

/// What precedes the last byte of a distance, where `m` is the distance without its lowest
/// seven bits.
pub open spec fn distance_head(m: nat) -> Seq<u8>
    decreases m,
{
    if m == 0 {
        seq![]
    } else {
        distance_head(((m - 1) / 128) as nat).push((128 + (m - 1) % 128) as u8)
    }
}

/// The bytes of the distance `n`: groups of seven bits, the highest first, all but the last
/// marked by 128 and one less than their value.
pub open spec fn distance_bytes(n: nat) -> Seq<u8> {
    distance_head(n / 128).push((n % 128) as u8)
}

/// The distance whose bytes go on at `i`, where those before gave `value`, and the position
/// after it.
pub open spec fn distance_from(d: Seq<u8>, i: int, value: int) -> Option<(int, int)>
    decreases d.len() - i,
{
    if i >= d.len() || value + 1 >= two_64() {
        None
    } else {
        let next = ((value + 1) * 128) % two_64() + d[i] as int % 128;
        if d[i] < 128 {
            Some((next, i + 1))
        } else {
            distance_from(d, i + 1, next)
        }
    }
}

/// The distance that begins `d`, and how many bytes it takes.
pub open spec fn distance(d: Seq<u8>) -> Option<(int, int)> {
    if d.len() == 0 {
        None
    } else if d[0] < 128 {
        Some((d[0] as int, 1))
    } else {
        distance_from(d, 1, d[0] as int % 128)
    }
}

/// The bytes of the header of an entry.
pub open spec fn header_bytes(h: HeaderView, size: nat) -> Seq<u8> {
    type_and_size_bytes(h.type_id(), size) + (match h {
        HeaderView::RefDelta { base_id } => base_id,
        HeaderView::OfsDelta { base_distance } => distance_bytes(base_distance as nat),
        _ => seq![],
    })
}

/// The header that begins `d`, the size of the object, and how many bytes the header takes.
pub open spec fn header_read(d: Seq<u8>) -> Option<(HeaderView, u64, int)> {
    match type_and_size(d) {
        None => None,
        Some((type_id, size, n)) => if type_id == OFS_DELTA {
            match distance(from(d, n)) {
                None => None,
                Some((dist, m)) => Some(
                    (HeaderView::OfsDelta { base_distance: dist as u64 }, size, n + m),
                ),
            }
        } else if type_id == REF_DELTA {
            if n + 20 <= d.len() {
                Some((HeaderView::RefDelta { base_id: d.subrange(n, n + 20) }, size, n + 20))
            } else {
                None
            }
        } else if type_id == BLOB {
            Some((HeaderView::Blob, size, n))
        } else if type_id == TREE {
            Some((HeaderView::Tree, size, n))
        } else if type_id == COMMIT {
            Some((HeaderView::Commit, size, n))
        } else {
            None
        },
    }
}

/// Reads the type and the size that begin an entry.
fn parse_header_info(data: &[u8]) -> (r: Result<(u8, u64, usize), GitError>)
    ensures
        r matches Ok(x) ==> type_and_size(data@) == Some((x.0, x.1, x.2 as int)) && 1
            <= x.2 <= data@.len(),
        r matches Err(e) ==> e is Gen && type_and_size(data@) is None,
{
    if data.len() == 0 {
        return Err(GitError::Gen);
    }
    proof {
        lemma_varint_end(data@, 0);
        lemma_pow0(128);
    }
    let type_id: u8 = (data[0] / 16) % 8;
    let mut size: u128 = (data[0] % 16) as u128;
    let mut unit: u128 = 16;
    let mut i: usize = 1;
    while data[i - 1] >= 128
        invariant
            1 <= i <= data@.len(),
            i <= 10,
            varint_end(data@, 0) == varint_end(data@, i - 1),
            size == data@[0] as int % 16 + 16 * varint_value(data@, 1, i - 1),
            unit == 16 * pow(128, (i - 1) as nat),
            size < unit,
            i == 1 ==> unit == 0x10,
            i == 2 ==> unit == 0x800,
            i == 3 ==> unit == 0x4_0000,
            i == 4 ==> unit == 0x200_0000,
            i == 5 ==> unit == 0x1_0000_0000,
            i == 6 ==> unit == 0x80_0000_0000,
            i == 7 ==> unit == 0x4000_0000_0000,
            i == 8 ==> unit == 0x20_0000_0000_0000,
            i == 9 ==> unit == 0x1000_0000_0000_0000,
            i == 10 ==> unit == 0x8_0000_0000_0000_0000,
        decreases data@.len() - i,
    {
        proof {
            lemma_varint_end(data@, i as int);
        }
        if i >= data.len() || i >= 10 {
            return Err(GitError::Gen);
        }
        let group: u128 = (data[i] % 128) as u128;
        assert(group * unit <= 127 * unit) by (nonlinear_arith)
            requires
                group <= 127,
                unit >= 1,
        ;
        proof {
            lemma_varint_split(data@, 1, i - 1, i as int);
            lemma_pow1(128);
            lemma_pow_adds(128, 1, (i - 1) as nat);
            assert(varint_value(data@, i as int, i as int) == group) by {
                assert(varint_value(data@, i + 1, i as int) == 0);
            }
            let p = pow(128, (i - 1) as nat);
            assert(16 * (p * group) == group * unit) by (nonlinear_arith)
                requires
                    unit == 16 * p,
            ;
        }
        size = size + group * unit;
        unit = unit * 128;
        i += 1;
    }
    Ok((type_id, (size % 0x1_0000_0000_0000_0000) as u64, i))
}

/// Reads the distance that begins `data`, and how many bytes it takes.
pub fn parse_leb64(data: &[u8]) -> (r: Result<(u64, usize), GitError>)
    ensures
        r matches Ok(x) ==> distance(data@) == Some((x.0 as int, x.1 as int)) && 1 <= x.1
            <= data@.len(),
        r matches Err(e) ==> e is Gen && distance(data@) is None,
{
    if data.len() == 0 {
        return Err(GitError::Gen);
    }
    let mut c: u8 = data[0];
    let mut i: usize = 1;
    let mut value: u64 = (c % 128) as u64;
    while c >= 128
        invariant
            1 <= i <= data@.len(),
            c == data@[i - 1],
            c >= 128 ==> distance(data@) == distance_from(data@, i as int, value as int),
            c < 128 ==> distance(data@) == Some((value as int, i as int)),
        decreases data@.len() - i,
    {
        if i >= data.len() {
            return Err(GitError::Gen);
        }
        c = data[i];
        i += 1;
        let more: u64 = match value.checked_add(1) {
            Some(more) => more,
            None => {
                return Err(GitError::Gen);
            },
        };
        let shifted: u64 = ((more as u128 * 128) % 0x1_0000_0000_0000_0000) as u64;
        assert(shifted % 128 == 0);
        assert(shifted <= u64::MAX - 127);
        value = shifted + (c % 128) as u64;
    }
    Ok((value, i))
}

/// The bytes of the distance `n`.
pub fn leb64_encode(n: u64) -> (r: Vec<u8>)
    ensures
        r@ == distance_bytes(n as nat),
{
    let mut tail: Vec<u8> = Vec::new();
    let mut m: u64 = n / 128;
    tail.push((n % 128) as u8);
    let ghost last = seq![(n as nat % 128) as u8];
    assert(tail@.reverse() =~= last);
    assert(distance_head(m as nat) + last =~= distance_bytes(n as nat));
    while m != 0
        invariant
            distance_head(m as nat) + tail@.reverse() == distance_bytes(n as nat),
        decreases m,
    {
        let ghost before = tail@;
        let ghost m0 = m as nat;
        m = m - 1;
        let b: u8 = (128 + m % 128) as u8;
        tail.push(b);
        m = m / 128;
        assert(tail@.reverse() =~= seq![b] + before.reverse());
        assert(distance_head(m0) == distance_head(m as nat).push(b));
        assert(distance_head(m as nat) + (seq![b] + before.reverse()) =~= distance_head(
            m as nat,
        ).push(b) + before.reverse());
    }
    assert(distance_head(0) + tail@.reverse() =~= tail@.reverse());
    let mut out: Vec<u8> = Vec::new();
    let mut i: usize = tail.len();
    while i > 0
        invariant
            i <= tail@.len(),
            out@ == tail@.reverse().take(tail@.len() - i),
        decreases i,
    {
        i -= 1;
        out.push(tail[i]);
        assert(out@ =~= tail@.reverse().take(tail@.len() - i));
    }
    assert(out@ =~= tail@.reverse());
    out
}

impl Header {
    /// Where the base of a delta begins that is `distance` bytes before `pack_offset`.
    pub fn verified_base_pack_offset(pack_offset: u64, distance: u64) -> (r: Option<u64>)
        ensures
            r == (if distance == 0 || distance > pack_offset {
                None
            } else {
                Some((pack_offset - distance) as u64)
            }),
    {
        if distance == 0 {
            return None;
        }
        pack_offset.checked_sub(distance)
    }

    /// The kind of object that the entry holds, where it is no delta.
    pub fn as_kind(&self) -> (r: Option<ObjectKind>)
        ensures
            r == self@.kind(),
    {
        match self {
            Header::Tree => Some(ObjectKind::Tree),
            Header::Blob => Some(ObjectKind::Blob),
            Header::Commit => Some(ObjectKind::Commit),
            _ => None,
        }
    }

    /// The number that stands for the kind of entry.
    pub fn as_type_id(&self) -> (r: u8)
        ensures
            r == self@.type_id(),
    {
        match self {
            Header::Blob => BLOB,
            Header::Tree => TREE,
            Header::Commit => COMMIT,
            Header::OfsDelta { .. } => OFS_DELTA,
            Header::RefDelta { .. } => REF_DELTA,
        }
    }

    /// Whether the entry is a delta.
    pub fn is_delta(&self) -> (r: bool)
        ensures
            r == self@.is_delta(),
    {
        matches!(self, Header::OfsDelta { .. } | Header::RefDelta { .. })
    }

    /// Appends the header of an entry for an object of the given size to `out`, and gives
    /// its length.
    pub fn write_to(&self, decompressed_size_in_bytes: u64, out: &mut Vec<u8>) -> (r: usize)
        ensures
            final(out)@ == old(out)@ + header_bytes(self@, decompressed_size_in_bytes as nat),
            r == header_bytes(self@, decompressed_size_in_bytes as nat).len(),
    {
        let mut head: Vec<u8> = Vec::new();
        let ghost all = type_and_size_bytes(self@.type_id(), decompressed_size_in_bytes as nat);
        let mut c: u8 = self.as_type_id() * 16 + (decompressed_size_in_bytes % 16) as u8;
        let mut size: u64 = decompressed_size_in_bytes / 16;
        assert(head@ =~= seq![]);
        assert(size == 0 ==> seq![c] =~= all);
        assert(size != 0 ==> seq![(128 + c) as u8] + varint_bytes(size as nat) =~= all);
        while size != 0
            invariant
                c < 128,
                size == 0 ==> head@.push(c) == all,
                size != 0 ==> head@.push((128 + c) as u8) + varint_bytes(size as nat) == all,
            decreases size,
        {
            let ghost before = head@;
            let ghost m = size as nat;
            head.push(128 + c);
            c = (size % 128) as u8;
            size = size / 128;
            proof {
                if size == 0 {
                    assert(varint_bytes(m) == seq![c]);
                    assert(head@.push(c) =~= head@ + seq![c]);
                } else {
                    assert(varint_bytes(m) == seq![(128 + c) as u8] + varint_bytes(size as nat));
                    assert(head@.push((128 + c) as u8) + varint_bytes(size as nat) =~= head@ + (
                    seq![(128 + c) as u8] + varint_bytes(size as nat)));
                }
            }
        }
        head.push(c);
        match self {
            Header::RefDelta { base_id } => {
                push_all(&mut head, base_id.as_slice());
            },
            Header::OfsDelta { base_distance } => {
                let bytes = leb64_encode(*base_distance);
                push_all(&mut head, bytes.as_slice());
            },
            _ => {
                assert(head@ =~= head@ + seq![]);
            },
        }
        push_all(out, head.as_slice());
        head.len()
    }

    /// The length of the header of an entry for an object of the given size.
    pub fn size(&self, decompressed_size: u64) -> (r: usize)
        ensures
            r == header_bytes(self@, decompressed_size as nat).len(),
    {
        let mut sink: Vec<u8> = Vec::new();
        self.write_to(decompressed_size, &mut sink)
    }
}

/// An entry of a pack.
#[derive(Clone, Copy, Debug)]
pub struct DataEntry {
    pub header: Header,
    pub decompressed_size: u64,
    /// Where the compressed data begins.
    pub data_offset: u64,
    /// How long the header is, 0 where that was not kept.
    pub encoded_header_size: u16,
}

impl DataEntry {
    /// How long the header is.
    pub open spec fn header_len(self) -> int {
        if self.encoded_header_size == 0 {
            header_bytes(self.header@, self.decompressed_size as nat).len() as int
        } else {
            self.encoded_header_size as int
        }
    }

    /// The data begins after the header.
    pub open spec fn wf(self) -> bool {
        self.header_len() <= self.data_offset
    }

    /// How long the header is.
    pub fn header_size(&self) -> (r: usize)
        ensures
            r == self.header_len(),
    {
        if self.encoded_header_size == 0 {
            self.header.size(self.decompressed_size)
        } else {
            self.encoded_header_size as usize
        }
    }

    /// Where the entry begins.
    pub fn pack_offset(&self) -> (r: u64)
        requires
            self.wf(),
        ensures
            r == self.data_offset - self.header_len(),
    {
        self.data_offset - self.header_size() as u64
    }

    /// Where the base of the delta begins that is `distance` bytes before the entry.
    pub fn checked_base_pack_offset(&self, distance: u64) -> (r: Option<u64>)
        requires
            self.wf(),
        ensures
            r == (if distance == 0 || distance > self.data_offset - self.header_len() {
                None
            } else {
                Some((self.data_offset - self.header_len() - distance) as u64)
            }),
    {
        Header::verified_base_pack_offset(self.pack_offset(), distance)
    }

    /// The entry is the one that the header at `pack_offset` in a pack describes.
    pub open spec fn is_read(self, d: Seq<u8>, pack_offset: int) -> bool {
        &&& header_read(d) == Some(
            (self.header@, self.decompressed_size, self.encoded_header_size as int),
        )
        &&& self.data_offset == pack_offset + self.encoded_header_size
    }

    /// Reads the entry whose header begins `d` and which begins at `pack_offset` in its pack,
    /// where the header is no longer than 65535 bytes.
    pub fn from_bytes(d: &[u8], pack_offset: u64, hash_len: usize) -> (r: Result<
        DataEntry,
        GitError,
    >)
        requires
            hash_len == 20,
            header_read(d@) matches Some(h) ==> h.2 <= u16::MAX && pack_offset + h.2 <= u64::MAX,
        ensures
            r is Ok <==> header_read(d@) is Some,
            r matches Ok(e) ==> e.is_read(d@, pack_offset as int) && e.wf(),
            r matches Err(e) ==> e is Gen,
    {
        match read_header(d) {
            Ok((header, decompressed_size, n)) => Ok(
                DataEntry {
                    header,
                    decompressed_size,
                    data_offset: pack_offset + n as u64,
                    encoded_header_size: n as u16,
                },
            ),
            Err(e) => Err(e),
        }
    }
}

/// Reads the header that begins `d`: what the entry holds, the size of the object, and how
/// many bytes the header takes.
pub fn read_header(d: &[u8]) -> (r: Result<(Header, u64, usize), GitError>)
    ensures
        r is Ok <==> header_read(d@) is Some,
        r matches Ok(x) ==> header_read(d@) == Some((x.0@, x.1, x.2 as int)) && 1 <= x.2
            <= d@.len(),
        r matches Err(e) ==> e is Gen,
{
    let (type_id, size, consumed) = match parse_header_info(d) {
        Ok(x) => x,
        Err(e) => {
            return Err(e);
        },
    };
    let len: usize = d.len();
    let rest: &[u8] = &d[consumed..len];
    let (header, more): (Header, usize) = if type_id == OFS_DELTA {
        match parse_leb64(rest) {
            Ok((base_distance, n)) => (Header::OfsDelta { base_distance }, n),
            Err(e) => {
                return Err(e);
            },
        }
    } else if type_id == REF_DELTA {
        if rest.len() < 20 {
            return Err(GitError::Gen);
        }
        let base_id = ObjectId::from_bytes_or_panic(&rest[0..20]);
        assert(base_id@ =~= d@.subrange(consumed as int, consumed + 20));
        (Header::RefDelta { base_id }, 20)
    } else if type_id == BLOB {
        (Header::Blob, 0)
    } else if type_id == TREE {
        (Header::Tree, 0)
    } else if type_id == COMMIT {
        (Header::Commit, 0)
    } else {
        return Err(GitError::Gen);
    };
    Ok((header, size, consumed + more))
}

/// `m` fits in `k` groups of seven bits.
proof fn lemma_varint_len(m: nat, k: nat)
    requires
        k >= 1,
        m < pow(128, k),
    ensures
        1 <= varint_bytes(m).len() <= k,
    decreases m,
{
    lemma_pow1(128);
    if m >= 128 {
        if k == 1 {
            assert(false);
        } else {
            lemma_pow_adds(128, 1, (k - 1) as nat);
            let p = pow(128, (k - 1) as nat);
            assert(m / 128 < p) by (nonlinear_arith)
                requires
                    m < 128 * p,
            ;
            lemma_varint_len(m / 128, (k - 1) as nat);
        }
    }
}

/// Reading groups of seven bits gives back the number that was written.
proof fn lemma_varint_read_back(d: Seq<u8>, i: int, m: nat)
    requires
        0 <= i,
        i + varint_bytes(m).len() <= d.len(),
        d.subrange(i, i + varint_bytes(m).len()) == varint_bytes(m),
    ensures
        varint_end(d, i) == i + varint_bytes(m).len() - 1,
        varint_value(d, i, varint_end(d, i)) == m,
    decreases m,
{
    let v = varint_bytes(m);
    assert(d[i] == d.subrange(i, i + v.len())[0]);
    if m < 128 {
        assert(varint_value(d, i + 1, i) == 0);
    } else {
        let w = varint_bytes(m / 128);
        assert(v[0] == (128 + m % 128) as u8);
        assert(d.subrange(i + 1, i + 1 + w.len()) =~= w) by {
            assert forall|j: int| 0 <= j < w.len() implies d.subrange(i + 1, i + 1 + w.len())[j]
                == w[j] by {
                assert(v[j + 1] == w[j]);
                assert(d.subrange(i, i + v.len())[j + 1] == d[i + 1 + j]);
            }
        }
        lemma_varint_read_back(d, i + 1, m / 128);
    }
}

proof fn lemma_pow_128_9()
    ensures
        pow(128, 9) == 0x8000_0000_0000_0000,
{
    reveal(pow);
    lemma_pow1(128);
    assert(pow(128, 2) == 128 * pow(128, 1));
    assert(pow(128, 3) == 128 * pow(128, 2));
    assert(pow(128, 4) == 128 * pow(128, 3));
    assert(pow(128, 5) == 128 * pow(128, 4));
    assert(pow(128, 6) == 128 * pow(128, 5));
    assert(pow(128, 7) == 128 * pow(128, 6));
    assert(pow(128, 8) == 128 * pow(128, 7));
    assert(pow(128, 9) == 128 * pow(128, 8));
}

/// Reading the type and the size of an entry gives back what was written, whatever follows.
pub proof fn law_type_and_size_read_back(type_id: u8, size: u64, rest: Seq<u8>)
    requires
        type_id < 8,
    ensures
        type_and_size(type_and_size_bytes(type_id, size as nat) + rest) == Some(
            (type_id, size, type_and_size_bytes(type_id, size as nat).len() as int),
        ),
{
    let head = type_and_size_bytes(type_id, size as nat);
    let d = head + rest;
    let n = size as nat;
    if n < 16 {
        assert(d[0] == head[0]);
        assert(varint_end(d, 0) == 0);
        assert(varint_value(d, 1, 0) == 0);
    } else {
        let v = varint_bytes(n / 16);
        assert(d[0] == head[0]);
        assert(head[0] == (128 + type_id * 16 + n % 16) as u8);
        assert(d.subrange(1, 1 + v.len() as int) =~= v);
        lemma_varint_read_back(d, 1, n / 16);
        lemma_pow_128_9();
        lemma_varint_len(n / 16, 9);
        assert(varint_end(d, 0) == varint_end(d, 1));
        assert(d[0] as int % 16 + 16 * varint_value(d, 1, varint_end(d, 0)) == n);
    }
}

/// Reading on after the head of a distance: the value so far is one less than what the head
/// stands for.
proof fn lemma_distance_head(d: Seq<u8>, m: nat, n: nat)
    requires
        m >= 1,
        m < 0x200_0000_0000_0000,
        distance_head(m).len() < d.len(),
        d.take(distance_head(m).len() as int) == distance_head(m),
    ensures
        distance(d) == distance_from(d, distance_head(m).len() as int, m - 1),
    decreases m,
{
    let h = distance_head(m);
    let q = ((m - 1) / 128) as nat;
    let g = distance_head(q);
    assert(d[h.len() - 1] == d.take(h.len() as int)[h.len() - 1]);
    assert(d[h.len() - 1] == (128 + (m - 1) % 128) as u8);
    if q == 0 {
        assert(g.len() == 0);
    } else {
        assert(d.take(g.len() as int) =~= g) by {
            assert forall|j: int| 0 <= j < g.len() implies d.take(g.len() as int)[j] == g[j] by {
                assert(d.take(h.len() as int)[j] == h[j]);
            }
        }
        lemma_distance_head(d, q, n);
        assert(((q - 1 + 1) * 128) % two_64() + (m - 1) % 128 == m - 1);
    }
}

/// Reading a distance gives back what was written, whatever follows.
pub proof fn law_distance_read_back(n: u64, rest: Seq<u8>)
    ensures
        distance(distance_bytes(n as nat) + rest) == Some(
            (n as int, distance_bytes(n as nat).len() as int),
        ),
{
    let b = distance_bytes(n as nat);
    let d = b + rest;
    let m = n as nat / 128;
    let h = distance_head(m);
    assert(d[h.len() as int] == b[h.len() as int]);
    if m == 0 {
        assert(h.len() == 0);
    } else {
        assert(d.take(h.len() as int) =~= h);
        lemma_distance_head(d, m, n as nat);
        assert(((m - 1 + 1) * 128) % two_64() + n as int % 128 == n);
    }
}

/// Reading the header of an entry gives back what was written, whatever follows.
pub proof fn law_header_read_back(h: HeaderView, size: u64, rest: Seq<u8>)
    requires
        h matches HeaderView::RefDelta { base_id } ==> base_id.len() == 20,
    ensures
        header_read(header_bytes(h, size as nat) + rest) == Some(
            (h, size, header_bytes(h, size as nat).len() as int),
        ),
{
    let head = type_and_size_bytes(h.type_id(), size as nat);
    let tail = match h {
        HeaderView::RefDelta { base_id } => base_id,
        HeaderView::OfsDelta { base_distance } => distance_bytes(base_distance as nat),
        _ => seq![],
    };
    let d = header_bytes(h, size as nat) + rest;
    assert(d =~= head + (tail + rest));
    law_type_and_size_read_back(h.type_id(), size, tail + rest);
    let n = head.len() as int;
    assert(from(d, n) =~= tail + rest);
    match h {
        HeaderView::OfsDelta { base_distance } => {
            law_distance_read_back(base_distance, rest);
        },
        HeaderView::RefDelta { base_id } => {
            assert(d.subrange(n, n + 20) =~= base_id);
        },
        _ => {},
    }
}

/// The number whose groups of seven bits are the bytes of `d` from `i` to before `j`, the lowest group first.
pub open spec fn groups_up(d: Seq<u8>, i: int, j: int) -> int
    decreases j - i,
{
    if j <= i {
        0
    } else {
        groups_up(d, i, j - 1) + (d[j - 1] as int % 128) * pow(128, (j - 1 - i) as nat)
    }
}

/// The number whose groups of seven bits are the first `n` bytes of `d`, the highest group first.
pub open spec fn groups_down(d: Seq<u8>, n: int) -> int
    decreases n,
{
    if n <= 0 {
        0
    } else {
        128 * groups_down(d, n - 1) + d[n - 1] as int % 128
    }
}

/// The sum of the powers of 128 from the first up to the `k`-th.
pub open spec fn powers_below(k: int) -> int
    decreases k,
{
    if k <= 0 {
        0
    } else {
        128 * powers_below(k - 1) + 128
    }
}

proof fn lemma_groups_up(d: Seq<u8>, i: int, end: int)
    requires
        0 <= i <= end + 1,
    ensures
        varint_value(d, i, end) == groups_up(d, i, end + 1),
    decreases end + 1 - i,
{
    if i <= end {
        lemma_groups_up(d, i, end - 1);
        lemma_varint_split(d, i, end - 1, end);
        assert(varint_value(d, end, end) == d[end] as int % 128) by {
            assert(varint_value(d, end + 1, end) == 0);
        }
        let p = pow(128, (end - i) as nat);
        let g = d[end] as int % 128;
        assert(p * g == g * p) by (nonlinear_arith);
    }
}

proof fn lemma_varint_end_is(d: Seq<u8>, i: int, end: int)
    requires
        0 <= i <= end < d.len(),
        d[end] < 128,
        forall|j: int| i <= j < end ==> #[trigger] d[j] >= 128,
    ensures
        varint_end(d, i) == end,
    decreases end - i,
{
    if i < end {
        lemma_varint_end_is(d, i + 1, end);
    }
}

/// The first byte of an entry gives its type in three bits and the lowest four bits of its size. The other bits of the size
/// follow in groups of seven, the lowest first, each but the last marked by 128.
pub proof fn law_type_and_size_in_bits(d: Seq<u8>, end: int)
    requires
        0 <= end < d.len(),
        end < 10,
        d[end] < 128,
        forall|j: int| 0 <= j < end ==> #[trigger] d[j] >= 128,
        d[0] as int % 16 + 16 * groups_up(d, 1, end + 1) <= u64::MAX,
    ensures
        type_and_size(d) == Some(
            (
                ((d[0] as int / 16) % 8) as u8,
                (d[0] as int % 16 + 16 * groups_up(d, 1, end + 1)) as u64,
                end + 1,
            ),
        ),
{
    lemma_varint_end_is(d, 0, end);
    lemma_groups_up(d, 1, end);
    lemma_groups_positive(d, 1, end + 1);
}

proof fn lemma_groups_positive(d: Seq<u8>, i: int, j: int)
    ensures
        groups_up(d, i, j) >= 0,
    decreases j - i,
{
    if i < j {
        lemma_groups_positive(d, i, j - 1);
        vstd::arithmetic::power::lemma_pow_positive(128, (j - 1 - i) as nat);
        let p = pow(128, (j - 1 - i) as nat);
        let g = d[j - 1] as int % 128;
        assert(g * p >= 0) by (nonlinear_arith)
            requires
                g >= 0,
                p >= 0,
        ;
    }
}

/// The number of an entry's type says what it holds: commits are 1, trees 2 and blobs 3; 6 is a delta to what begins so
/// many bytes before it, and 7 one to the object whose id follows.
pub proof fn law_types_of_entries(d: Seq<u8>, kind: u8, size: u64, n: int)
    requires
        type_and_size(d) == Some((kind, size, n)),
        0 <= n <= d.len(),
    ensures
        kind == 1 ==> header_read(d) == Some((HeaderView::Commit, size, n)),
        kind == 2 ==> header_read(d) == Some((HeaderView::Tree, size, n)),
        kind == 3 ==> header_read(d) == Some((HeaderView::Blob, size, n)),
        kind == 7 && n + 20 <= d.len() ==> header_read(d) == Some(
            (HeaderView::RefDelta { base_id: d.subrange(n, n + 20) }, size, n + 20),
        ),
        kind == 6 ==> (distance(d.skip(n)) matches Some((dist, m)) ==> header_read(d) == Some(
            (HeaderView::OfsDelta { base_distance: dist as u64 }, size, n + m),
        )),
        kind == 0 || kind == 4 || kind == 5 ==> header_read(d) is None,
{
    assert(from(d, n) =~= d.skip(n));
}

proof fn lemma_distance_from_is(d: Seq<u8>, i: int, end: int)
    requires
        1 <= i <= end < d.len(),
        d[end] < 128,
        forall|j: int| 0 <= j < end ==> #[trigger] d[j] >= 128,
        groups_down(d, end + 1) + powers_below(end) < two_64(),
    ensures
        distance_from(d, i, groups_down(d, i) + powers_below(i - 1)) == Some(
            (groups_down(d, end + 1) + powers_below(end), end + 1),
        ),
    decreases end - i,
{
    lemma_distance_grows(d, i, end);
    let value = groups_down(d, i) + powers_below(i - 1);
    let next = groups_down(d, i + 1) + powers_below(i);
    assert((value + 1) * 128 + d[i] as int % 128 == next);
    if i < end {
        lemma_distance_grows(d, i + 1, end);
        lemma_distance_from_is(d, i + 1, end);
    }
}

proof fn lemma_distance_grows(d: Seq<u8>, i: int, end: int)
    requires
        1 <= i <= end < d.len(),
    ensures
        0 <= groups_down(d, i),
        0 <= powers_below(i - 1),
        (groups_down(d, i) + powers_below(i - 1) + 1) * 128 <= groups_down(d, end + 1) + powers_below(end),
    decreases end - i,
{
    lemma_groups_down_positive(d, i);
    if i < end {
        lemma_distance_grows(d, i, end - 1);
    }
}

proof fn lemma_groups_down_positive(d: Seq<u8>, n: int)
    ensures
        groups_down(d, n) >= 0,
        powers_below(n - 1) >= 0,
    decreases n,
{
    if n > 0 {
        lemma_groups_down_positive(d, n - 1);
    }
}

/// The distance to a base is written in groups of seven bits, the highest first, each but the last marked by 128. As a
/// distance of several groups is never one that fewer can write, the least of them stands for the sum of the powers of 128
/// below it.
pub proof fn law_distance_in_bits(d: Seq<u8>, end: int)
    requires
        0 <= end < d.len(),
        d[end] < 128,
        forall|j: int| 0 <= j < end ==> #[trigger] d[j] >= 128,
        groups_down(d, end + 1) + powers_below(end) <= u64::MAX,
    ensures
        distance(d) == Some((groups_down(d, end + 1) + powers_below(end), end + 1)),
{
    assert(groups_down(d, 1) == d[0] as int % 128) by {
        assert(groups_down(d, 0) == 0);
    }
    assert(powers_below(0) == 0);
    if end > 0 {
        lemma_distance_from_is(d, 1, end);
    }
}

} // verus!
