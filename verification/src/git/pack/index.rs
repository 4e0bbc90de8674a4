//! The index of a pack: which objects it holds, and where.
use crate::bytes::{compare, from, lemma_less_asymmetric, lemma_less_irreflexive, less, Order};
use crate::git::error::GitError;
use crate::git::oid::oid;
use vstd::prelude::*;

verus! {

/// How many counters the fan table has.
pub const FAN_LEN: usize = 256;

pub const N32_SIZE: usize = 4;

pub const N64_SIZE: usize = 8;

pub const V1_HEADER_SIZE: usize = 1024;

pub const V2_HEADER_SIZE: usize = 1032;

pub const N32_HIGH_BIT: u32 = 0x8000_0000;

/// The version of an index.
#[derive(Clone, Copy, Debug, PartialEq, Eq, Structural)]
pub enum IndexVersion {
    V1,
    V2,
}

/// The number in the four bytes of `s` at `i`, the highest first.
pub open spec fn be32(s: Seq<u8>, i: int) -> int {
    s[i] * 0x100_0000 + s[i + 1] * 0x1_0000 + s[i + 2] * 0x100 + s[i + 3]
}

/// The number in the eight bytes of `s` at `i`, the highest first.
pub open spec fn be64(s: Seq<u8>, i: int) -> int {
    be32(s, i) * 0x1_0000_0000 + be32(s, i + 4)
}

/// Reads the number in the four bytes of `s` at `i`.
pub fn read_u32(s: &[u8], i: usize) -> (r: u32)
    requires
        i + 4 <= s@.len(),
    ensures
        r == be32(s@, i as int),
{
    let len: usize = s.len();
    s[i] as u32 * 0x100_0000 + s[i + 1] as u32 * 0x1_0000 + s[i + 2] as u32 * 0x100
        + s[i + 3] as u32
}

/// Reads the number in the eight bytes of `s` at `i`.
pub fn read_u64(s: &[u8], i: usize) -> (r: u64)
    requires
        i + 8 <= s@.len(),
    ensures
        r == be64(s@, i as int),
{
    let len: usize = s.len();
    read_u32(s, i) as u64 * 0x1_0000_0000 + read_u32(s, i + 4) as u64
}

/// The data begins with the mark of the second version.
pub open spec fn is_v2(data: Seq<u8>) -> bool {
    data[0] == 0xff && data[1] == 't' as u8 && data[2] == 'O' as u8 && data[3] == 'c' as u8
}

/// Where the fan table begins.
pub open spec fn fan_start(data: Seq<u8>) -> int {
    if is_v2(data) {
        8
    } else {
        0
    }
}

/// The counter of the fan table for the first byte `b`: how many objects have an id that
/// begins with `b` or less.
pub open spec fn fan_at(data: Seq<u8>, b: int) -> int {
    be32(data, fan_start(data) + 4 * b)
}

/// How many objects the index says the pack holds.
pub open spec fn object_count(data: Seq<u8>) -> int {
    fan_at(data, 255)
}

/// The counters of the fan table do not fall.
pub open spec fn fan_rises(data: Seq<u8>) -> bool {
    forall|i: int, j: int|
        0 <= i <= j < 256 ==> #[trigger] fan_at(data, i) <= #[trigger] fan_at(data, j)
}

/// How many of the first `k` offsets after `start` point to the table of large offsets.
pub open spec fn large_offsets(data: Seq<u8>, start: int, k: int) -> int
    decreases k,
{
    if k <= 0 {
        0
    } else {
        large_offsets(data, start, k - 1) + if be32(data, start + 4 * (k - 1)) >= N32_HIGH_BIT {
            1int
        } else {
            0
        }
    }
}

/// Every offset that points to the table of large offsets points below `count`.
pub open spec fn large_offsets_below(data: Seq<u8>, start: int, k: int, count: int) -> bool {
    forall|i: int|
        0 <= i < k && #[trigger] be32(data, start + 4 * i) >= N32_HIGH_BIT ==> be32(
            data,
            start + 4 * i,
        ) - N32_HIGH_BIT < count
}

/// The tables of the index have the sizes that its number of objects asks for.
pub open spec fn size_valid(data: Seq<u8>) -> bool {
    let n = object_count(data);
    if is_v2(data) {
        let start = 1032 + 24 * n;
        let large = large_offsets(data, start, n);
        &&& start + 4 * n <= data.len()
        &&& data.len() == 1032 + 28 * n + 8 * large + 40
        &&& large > 0 ==> large_offsets_below(data, start, n, large)
    } else {
        data.len() == 1024 + 24 * n + 40
    }
}

/// The data is that of an index.
pub open spec fn index_valid(data: Seq<u8>) -> bool {
    &&& data.len() >= 1064
    &&& is_v2(data) ==> be32(data, 4) == 2
    &&& fan_rises(data)
    &&& size_valid(data)
}

/// An index.
#[derive(Debug)]
pub struct IndexFile {
    data: Vec<u8>,
    version: IndexVersion,
    num_objects: u32,
    fan: Vec<u32>,
}

impl View for IndexFile {
    type V = Seq<u8>;

    closed spec fn view(&self) -> Seq<u8> {
        self.data@
    }
}

/// The id of the object `i` of an index.
pub open spec fn id_at(data: Seq<u8>, i: int) -> Seq<u8> {
    if is_v2(data) {
        data.subrange(1032 + 20 * i, 1032 + 20 * i + 20)
    } else {
        data.subrange(1024 + 24 * i + 4, 1024 + 24 * i + 24)
    }
}

/// Where the object `i` of an index begins in the pack.
pub open spec fn offset_at(data: Seq<u8>, i: int) -> int {
    let n = object_count(data);
    if is_v2(data) {
        let small = be32(data, 1032 + 24 * n + 4 * i);
        if small >= N32_HIGH_BIT {
            be64(data, 1032 + 28 * n + 8 * (small - N32_HIGH_BIT))
        } else {
            small
        }
    } else {
        be32(data, 1024 + 24 * i)
    }
}

/// The position from `lo` to before `hi` that halving finds for `id`.
pub open spec fn bisect(data: Seq<u8>, id: Seq<u8>, lo: int, hi: int) -> Option<int>
    decreases hi - lo,
{
    if lo >= hi {
        None
    } else {
        let mid = (lo + hi) / 2;
        if id_at(data, mid) == id {
            Some(mid)
        } else if less(id, id_at(data, mid)) {
            bisect(data, id, lo, mid)
        } else {
            bisect(data, id, mid + 1, hi)
        }
    }
}

/// The first position of an object whose id begins with `b`.
pub open spec fn fan_low(data: Seq<u8>, b: int) -> int {
    if b == 0 {
        0
    } else {
        fan_at(data, b - 1)
    }
}

/// The position of the object `id` in an index.
pub open spec fn found_at(data: Seq<u8>, id: Seq<u8>) -> Option<int> {
    bisect(data, id, fan_low(data, id[0] as int), fan_at(data, id[0] as int))
}

/// The ids of an index rise, and its fan table counts them.
pub open spec fn index_sorted(data: Seq<u8>) -> bool {
    let n = object_count(data);
    &&& forall|i: int, j: int|
        0 <= i < j < n ==> less(#[trigger] id_at(data, i), #[trigger] id_at(data, j))
    &&& forall|i: int|
        0 <= i < n ==> fan_low(data, (#[trigger] id_at(data, i))[0] as int) <= i < fan_at(
            data,
            id_at(data, i)[0] as int,
        )
}

proof fn lemma_bisect(data: Seq<u8>, id: Seq<u8>, lo: int, hi: int, k: int)
    requires
        index_sorted(data),
        0 <= lo <= k < hi <= object_count(data),
        id_at(data, k) == id,
    ensures
        bisect(data, id, lo, hi) == Some(k),
    decreases hi - lo,
{
    let mid = (lo + hi) / 2;
    lemma_less_irreflexive(id, 0);
    if mid < k {
        assert(less(id_at(data, mid), id_at(data, k)));
        lemma_less_asymmetric(id_at(data, mid), id, 0);
        lemma_bisect(data, id, mid + 1, hi, k);
    } else if mid > k {
        assert(less(id_at(data, k), id_at(data, mid)));
        lemma_bisect(data, id, lo, mid, k);
    }
}

proof fn lemma_bisect_sound(data: Seq<u8>, id: Seq<u8>, lo: int, hi: int)
    ensures
        bisect(data, id, lo, hi) matches Some(k) ==> lo <= k < hi && id_at(data, k) == id,
    decreases hi - lo,
{
    if lo < hi {
        let mid = (lo + hi) / 2;
        lemma_bisect_sound(data, id, lo, mid);
        lemma_bisect_sound(data, id, mid + 1, hi);
    }
}

/// An index whose ids are in order finds each object that it holds, and nothing else.
pub proof fn law_sorted_index_finds(data: Seq<u8>, id: Seq<u8>, k: int)
    requires
        index_valid(data),
        index_sorted(data),
        id.len() == 20,
        0 <= k < object_count(data),
    ensures
        id_at(data, k) == id ==> found_at(data, id) == Some(k),
        found_at(data, id) matches Some(j) ==> 0 <= j < object_count(data) && id_at(data, j) == id,
{
    let b = id[0] as int;
    assert(fan_at(data, b) <= fan_at(data, 255));
    if id_at(data, k) == id {
        lemma_bisect(data, id, fan_low(data, b), fan_at(data, b), k);
    }
    lemma_bisect_sound(data, id, fan_low(data, b), fan_at(data, b));
}

/// Reads the fan table.
fn read_fan(d: &[u8], start: usize) -> (r: Vec<u32>)
    requires
        start + 1024 <= d@.len(),
    ensures
        r@.len() == 256,
        forall|i: int| 0 <= i < 256 ==> #[trigger] r@[i] == be32(d@, start + 4 * i),
{
    let len: usize = d.len();
    let mut fan: Vec<u32> = Vec::new();
    let mut i: usize = 0;
    while i < 256
        invariant
            i <= 256,
            len == d@.len(),
            start + 1024 <= len,
            fan@.len() == i,
            forall|j: int| 0 <= j < i ==> #[trigger] fan@[j] == be32(d@, start + 4 * j),
        decreases 256 - i,
    {
        fan.push(read_u32(d, start + 4 * i));
        i += 1;
    }
    fan
}

/// Whether no counter is less than the one before it.
fn fan_is_monotonically_increasing(fan: &[u32]) -> (r: bool)
    ensures
        r <==> forall|i: int, j: int| 0 <= i <= j < fan@.len() ==> fan@[i] <= fan@[j],
{
    let mut i: usize = 1;
    while i < fan.len()
        invariant
            1 <= i,
            fan@.len() > 0 ==> i <= fan@.len(),
            forall|a: int, b: int| 0 <= a <= b < i && b < fan@.len() ==> fan@[a] <= fan@[b],
        decreases fan@.len() - i,
    {
        if fan[i - 1] > fan[i] {
            return false;
        }
        i += 1;
    }
    true
}

/// Counts the offsets that point to the table of large offsets, and the largest place there
/// that one of them points to.
fn count_large_offsets(data: &[u8], start: usize, n: usize) -> (r: (usize, usize))
    requires
        start + 4 * n <= data@.len(),
    ensures
        r.0 == large_offsets(data@, start as int, n as int),
        r.0 <= n,
        forall|i: int|
            0 <= i < n && #[trigger] be32(data@, start + 4 * i) >= N32_HIGH_BIT ==> be32(
                data@,
                start + 4 * i,
            ) - N32_HIGH_BIT <= r.1,
        r.0 > 0 ==> exists|i: int|
            0 <= i < n && #[trigger] be32(data@, start + 4 * i) >= N32_HIGH_BIT && be32(
                data@,
                start + 4 * i,
            ) - N32_HIGH_BIT == r.1,
        r.0 == 0 ==> r.1 == 0,
{
    let len: usize = data.len();
    let mut count: usize = 0;
    let mut max_index: usize = 0;
    let mut i: usize = 0;
    while i < n
        invariant
            i <= n,
            len == data@.len(),
            start + 4 * n <= len,
            count <= i,
            count == large_offsets(data@, start as int, i as int),
            forall|j: int|
                0 <= j < i && #[trigger] be32(data@, start + 4 * j) >= N32_HIGH_BIT ==> be32(
                    data@,
                    start + 4 * j,
                ) - N32_HIGH_BIT <= max_index,
            count > 0 ==> exists|j: int|
                0 <= j < i && #[trigger] be32(data@, start + 4 * j) >= N32_HIGH_BIT && be32(
                    data@,
                    start + 4 * j,
                ) - N32_HIGH_BIT == max_index,
            count == 0 ==> max_index == 0,
        decreases n - i,
    {
        let offset: u32 = read_u32(data, start + 4 * i);
        if offset >= N32_HIGH_BIT {
            let index: usize = (offset - N32_HIGH_BIT) as usize;
            assert(be32(data@, start + 4 * i) - N32_HIGH_BIT == index);
            count = count + 1;
            if index > max_index {
                max_index = index;
            } else if max_index == 0 {
                assert(index == max_index);
            }
        }
        i += 1;
    }
    (count, max_index)
}

/// Whether the tables of the index have the sizes that its number of objects asks for.
fn validate_size(data: &[u8], kind: IndexVersion, num_objects: u32) -> (r: Result<(), GitError>)
    requires
        data@.len() >= 1064,
        kind == IndexVersion::V2 <==> is_v2(data@),
        num_objects == object_count(data@),
    ensures
        r is Ok <==> size_valid(data@),
        r matches Err(e) ==> e is Gen,
{
    let len: u128 = data.len() as u128;
    let n: u128 = num_objects as u128;
    match kind {
        IndexVersion::V1 => {
            if len != 1024 + 24 * n + 40 {
                return Err(GitError::Gen);
            }
        },
        IndexVersion::V2 => {
            let start: u128 = 1032 + 24 * n;
            if start + 4 * n > len {
                return Err(GitError::Gen);
            }
            let (large, max_index) = count_large_offsets(
                data,
                start as usize,
                num_objects as usize,
            );
            if large > 0 && max_index >= large {
                return Err(GitError::Gen);
            }
            if len != 1032 + 28 * n + 8 * large as u128 + 40 {
                return Err(GitError::Gen);
            }
        },
    }
    Ok(())
}

impl IndexFile {
    /// What was read from the data is what it says.
    pub closed spec fn wf(&self) -> bool {
        &&& index_valid(self.data@)
        &&& self.data@.len() <= usize::MAX
        &&& self.version == IndexVersion::V2 <==> is_v2(self.data@)
        &&& self.num_objects == object_count(self.data@)
        &&& self.fan@.len() == 256
        &&& forall|i: int| 0 <= i < 256 ==> #[trigger] self.fan@[i] == fan_at(self.data@, i)
    }

    /// Reads an index.
    pub fn from_data(data: Vec<u8>) -> (r: Result<IndexFile, GitError>)
        ensures
            r is Ok <==> index_valid(data@),
            r matches Ok(index) ==> index.wf() && index@ == data@,
            r matches Err(e) ==> e is Gen,
    {
        if data.len() < 1064 {
            return Err(GitError::Gen);
        }
        let d: &[u8] = data.as_slice();
        let version = if d[0] == 0xff && d[1] == 't' as u8 && d[2] == 'O' as u8 && d[3]
            == 'c' as u8 {
            IndexVersion::V2
        } else {
            IndexVersion::V1
        };
        let start: usize = match version {
            IndexVersion::V2 => 8,
            IndexVersion::V1 => 0,
        };
        if let IndexVersion::V2 = version {
            if read_u32(d, 4) != 2 {
                return Err(GitError::Gen);
            }
        }
        let fan = read_fan(d, start);
        let num_objects: u32 = fan[255];
        assert(forall|i: int| 0 <= i < 256 ==> #[trigger] fan@[i] == fan_at(data@, i));
        if !fan_is_monotonically_increasing(fan.as_slice()) {
            proof {
                let (i, j) = choose|i: int, j: int| 0 <= i <= j < 256 && !(fan@[i] <= fan@[j]);
                assert(!(fan_at(data@, i) <= fan_at(data@, j)));
            }
            return Err(GitError::Gen);
        }
        assert(fan_rises(data@)) by {
            assert forall|i: int, j: int| 0 <= i <= j < 256 implies #[trigger] fan_at(data@, i)
                <= #[trigger] fan_at(data@, j) by {
                assert(fan@[i] <= fan@[j]);
            }
        }
        match validate_size(d, version, num_objects) {
            Ok(_) => {},
            Err(e) => {
                return Err(e);
            },
        }
        Ok(IndexFile { data, version, num_objects, fan })
    }

    /// How many objects the pack holds.
    pub fn num_objects(&self) -> (r: u32)
        requires
            self.wf(),
        ensures
            r == object_count(self@),
    {
        self.num_objects
    }

    /// The id of the object `index`.
    pub fn oid_at_index(&self, index: u32) -> (r: oid<'_>)
        requires
            self.wf(),
            index < object_count(self@),
        ensures
            r@ == id_at(self@, index as int),
            r.wf(),
    {
        let len: usize = self.data.len();
        let start: usize = match self.version {
            IndexVersion::V2 => V2_HEADER_SIZE + index as usize * 20,
            IndexVersion::V1 => V1_HEADER_SIZE + index as usize * 24 + 4,
        };
        proof {
            lemma_large_not_negative(
                self.data@,
                1032 + 24 * object_count(self.data@),
                object_count(self.data@),
            );
        }
        let bytes: &[u8] = self.data.as_slice();
        oid::from_bytes_unchecked(&bytes[start..start + 20])
    }

    /// Where the checksums begin.
    fn offset_crc32_v2(&self) -> (r: usize)
        requires
            self.wf(),
            self.version == IndexVersion::V2,
        ensures
            r == 1032 + 20 * object_count(self.data@),
    {
        proof {
            lemma_large_not_negative(
                self.data@,
                1032 + 24 * object_count(self.data@),
                object_count(self.data@),
            );
        }
        V2_HEADER_SIZE + self.num_objects as usize * 20
    }

    /// Where the offsets begin.
    fn offset_pack_offset_v2(&self) -> (r: usize)
        requires
            self.wf(),
            self.version == IndexVersion::V2,
        ensures
            r == 1032 + 24 * object_count(self.data@),
    {
        proof {
            lemma_large_not_negative(
                self.data@,
                1032 + 24 * object_count(self.data@),
                object_count(self.data@),
            );
        }
        self.offset_crc32_v2() + self.num_objects as usize * N32_SIZE
    }

    /// Where the large offsets begin.
    fn offset_pack_offset64_v2(&self) -> (r: usize)
        requires
            self.wf(),
            self.version == IndexVersion::V2,
        ensures
            r == 1032 + 28 * object_count(self.data@),
    {
        proof {
            lemma_large_not_negative(
                self.data@,
                1032 + 24 * object_count(self.data@),
                object_count(self.data@),
            );
        }
        self.offset_pack_offset_v2() + self.num_objects as usize * N32_SIZE
    }

    /// Where the object `index` begins in the pack.
    pub fn pack_offset_at_index(&self, index: u32) -> (r: u64)
        requires
            self.wf(),
            index < object_count(self@),
        ensures
            r == offset_at(self@, index as int),
    {
        let len: usize = self.data.len();
        proof {
            lemma_large_not_negative(
                self.data@,
                1032 + 24 * object_count(self.data@),
                object_count(self.data@),
            );
            lemma_large_counts(
                self.data@,
                1032 + 24 * object_count(self.data@),
                object_count(self.data@),
                index as int,
            );
        }
        match self.version {
            IndexVersion::V2 => {
                let small: u32 = read_u32(
                    self.data.as_slice(),
                    self.offset_pack_offset_v2() + index as usize * N32_SIZE,
                );
                if small >= N32_HIGH_BIT {
                    read_u64(
                        self.data.as_slice(),
                        self.offset_pack_offset64_v2() + (small - N32_HIGH_BIT) as usize * N64_SIZE,
                    )
                } else {
                    small as u64
                }
            },
            IndexVersion::V1 => read_u32(
                self.data.as_slice(),
                V1_HEADER_SIZE + index as usize * 24,
            ) as u64,
        }
    }

    /// The position of the object `id`.
    pub fn lookup(&self, id: oid<'_>) -> (r: Option<u32>)
        requires
            self.wf(),
            id.wf(),
        ensures
            r is Some <==> found_at(self@, id@) is Some,
            r matches Some(i) ==> found_at(self@, id@) == Some(i as int),
            r matches Some(i) ==> i < object_count(self@) && id_at(self@, i as int) == id@,
    {
        let first_byte: usize = id.first_byte() as usize;
        let mut upper: u32 = self.fan[first_byte];
        let mut lower: u32 = if first_byte != 0 {
            self.fan[first_byte - 1]
        } else {
            0
        };
        proof {
            assert(fan_at(self@, first_byte as int) <= fan_at(self@, 255));
        }
        while lower < upper
            invariant
                self.wf(),
                id.wf(),
                upper <= object_count(self@),
                found_at(self@, id@) == bisect(self@, id@, lower as int, upper as int),
            decreases upper - lower,
        {
            let mid: u32 = lower + (upper - lower) / 2;
            let mid_id = self.oid_at_index(mid);
            match compare(id.as_bytes(), mid_id.as_bytes()) {
                Order::Less => {
                    proof {
                        lemma_less_irreflexive(id@, 0);
                    }
                    upper = mid;
                },
                Order::Equal => {
                    return Some(mid);
                },
                Order::Greater => {
                    lower = mid + 1;
                },
            }
        }
        None
    }

    /// Where the object `id` begins in the pack.
    pub fn pack_offset_by_id(&self, id: oid<'_>) -> (r: Option<u64>)
        requires
            self.wf(),
            id.wf(),
        ensures
            r is Some <==> found_at(self@, id@) is Some,
            r matches Some(o) ==> o == offset_at(self@, found_at(self@, id@)->0),
    {
        match self.lookup(id) {
            Some(i) => Some(self.pack_offset_at_index(i)),
            None => None,
        }
    }
}

proof fn lemma_large_not_negative(data: Seq<u8>, start: int, k: int)
    ensures
        large_offsets(data, start, k) >= 0,
    decreases k,
{
    if k > 0 {
        lemma_large_not_negative(data, start, k - 1);
    }
}

proof fn lemma_large_counts(data: Seq<u8>, start: int, k: int, i: int)
    requires
        0 <= i < k,
    ensures
        be32(data, start + 4 * i) >= N32_HIGH_BIT ==> large_offsets(data, start, k) > 0,
    decreases k,
{
    lemma_large_not_negative(data, start, k - 1);
    if i < k - 1 {
        lemma_large_counts(data, start, k - 1, i);
    }
}

/// A number in four bytes, the highest first.
pub open spec fn four_bytes(v: int) -> Seq<u8> {
    seq![(v / 0x100_0000 % 256) as u8, (v / 0x1_0000 % 256) as u8, (v / 0x100 % 256) as u8, (v % 256) as u8]
}

/// The parts of the same length `w` one after the other.
pub open spec fn side_by_side(parts: Seq<Seq<u8>>, w: int) -> Seq<u8> {
    Seq::new((parts.len() * w) as nat, |k: int| parts[k / w][k % w])
}

/// Numbers in four bytes each.
pub open spec fn in_fours(v: Seq<int>) -> Seq<u8> {
    side_by_side(v.map_values(|x: int| four_bytes(x)), 4)
}

proof fn lemma_side_by_side(parts: Seq<Seq<u8>>, w: int, i: int)
    requires
        w > 0,
        0 <= i < parts.len(),
        parts[i].len() == w,
    ensures
        side_by_side(parts, w).len() == parts.len() * w,
        w * i + w <= side_by_side(parts, w).len(),
        side_by_side(parts, w).subrange(w * i, w * i + w) == parts[i],
{
    let all = side_by_side(parts, w);
    assert(parts.len() * w >= 0 && w * i >= 0 && w * i + w <= parts.len() * w) by (nonlinear_arith)
        requires
            w > 0,
            0 <= i < parts.len(),
    ;
    assert forall|k: int| 0 <= k < w implies all[w * i + k] == #[trigger] parts[i][k] by {
        assert(w * i + k == i * w + k) by (nonlinear_arith);
        vstd::arithmetic::div_mod::lemma_fundamental_div_mod_converse(w * i + k, w, i, k);
    }
    assert(all.subrange(w * i, w * i + w) =~= parts[i]);
}

proof fn lemma_be32_of(s: Seq<u8>, at: int, v: int)
    requires
        0 <= v < 0x1_0000_0000,
        0 <= at,
        at + 4 <= s.len(),
        s.subrange(at, at + 4) == four_bytes(v),
    ensures
        be32(s, at) == v,
{
    let w = s.subrange(at, at + 4);
    assert(w[0] == s[at] && w[1] == s[at + 1] && w[2] == s[at + 2] && w[3] == s[at + 3]);
    assert(v / 0x1_0000 == 256 * (v / 0x100_0000) + v / 0x1_0000 % 256);
    assert(v / 0x100 == 256 * (v / 0x1_0000) + v / 0x100 % 256);
}

/// An index of the second version: its mark and version, how many ids begin with each byte or less, the ids, the checksums
/// of the entries, where the entries begin, and where those begin that are too far for four bytes.
pub open spec fn written_index(
    counts: Seq<int>,
    ids: Seq<Seq<u8>>,
    checksums: Seq<u8>,
    offsets: Seq<int>,
    far: Seq<int>,
    trailer: Seq<u8>,
) -> Seq<u8> {
    seq![0xffu8, 0x74, 0x4f, 0x63, 0, 0, 0, 2] + in_fours(counts) + side_by_side(ids, 20) + checksums + in_fours(offsets)
        + side_by_side(far.map_values(|x: int| four_bytes(x / 0x1_0000_0000) + four_bytes(x % 0x1_0000_0000)), 8) + trailer
}

proof fn lemma_part(a: Seq<u8>, b: Seq<u8>, c: Seq<u8>, i: int, j: int)
    requires
        0 <= i <= j <= b.len(),
    ensures
        (a + b + c).subrange(a.len() + i, a.len() + j) == b.subrange(i, j),
{
    assert((a + b + c).subrange(a.len() + i, a.len() + j) =~= b.subrange(i, j));
}

proof fn lemma_fours(v: Seq<int>, i: int)
    requires
        0 <= i < v.len(),
    ensures
        in_fours(v).len() == 4 * v.len(),
        in_fours(v).subrange(4 * i, 4 * i + 4) == four_bytes(v[i]),
{
    let parts = v.map_values(|x: int| four_bytes(x));
    lemma_side_by_side(parts, 4, i);
}

/// An index that was written is read as it was written: the object `i` has the id `i` and begins where the offset `i` says.
/// An offset with its highest bit set names one of those that are too far for four bytes.
pub proof fn law_index_read_back(
    counts: Seq<int>,
    ids: Seq<Seq<u8>>,
    checksums: Seq<u8>,
    offsets: Seq<int>,
    far: Seq<int>,
    trailer: Seq<u8>,
    i: int,
)
    requires
        counts.len() == 256,
        0 <= i < ids.len() < 0x1_0000_0000,
        offsets.len() == ids.len(),
        checksums.len() == 4 * ids.len(),
        counts[255] == ids.len(),
        ids[i].len() == 20,
        0 <= offsets[i] < 0x1_0000_0000,
        offsets[i] >= 0x8000_0000 ==> offsets[i] - 0x8000_0000 < far.len() && 0 <= far[offsets[i] - 0x8000_0000]
            < 0x1_0000_0000_0000_0000,
    ensures
        ({
            let data = written_index(counts, ids, checksums, offsets, far, trailer);
            &&& is_v2(data) && be32(data, 4) == 2
            &&& object_count(data) == ids.len()
            &&& id_at(data, i) == ids[i]
            &&& offset_at(data, i) == (if offsets[i] >= 0x8000_0000 {
                far[offsets[i] - 0x8000_0000]
            } else {
                offsets[i]
            })
        }),
{
    let n = ids.len() as int;
    let head = seq![0xffu8, 0x74, 0x4f, 0x63, 0, 0, 0, 2];
    let fan = in_fours(counts);
    let table = side_by_side(ids, 20);
    let offs = in_fours(offsets);
    let eights = far.map_values(|x: int| four_bytes(x / 0x1_0000_0000) + four_bytes(x % 0x1_0000_0000));
    let large = side_by_side(eights, 8);
    let data = written_index(counts, ids, checksums, offsets, far, trailer);
    lemma_fours(counts, 255);
    lemma_side_by_side(ids, 20, i);
    lemma_fours(offsets, i);
    assert(table.len() == 20 * n);
    assert(data =~= head + fan + (table + checksums + offs + large + trailer));
    lemma_head_in(data, head, fan, table + checksums + offs + large + trailer, counts);
    assert(data =~= (head + fan) + table + (checksums + offs + large + trailer));
    lemma_id_in(data, head + fan, checksums + offs + large + trailer, ids, i);
    assert(data =~= (head + fan + table + checksums) + offs + (large + trailer));
    lemma_offset_in(data, head + fan + table + checksums, large + trailer, offsets, i);
    if offsets[i] >= 0x8000_0000 {
        let k = offsets[i] - 0x8000_0000;
        assert(data =~= (head + fan + table + checksums + offs) + large + trailer);
        lemma_far_in(data, head + fan + table + checksums + offs, trailer, far, k);
    }
}

proof fn lemma_head_in(data: Seq<u8>, head: Seq<u8>, fan: Seq<u8>, after: Seq<u8>, counts: Seq<int>)
    requires
        head == seq![0xffu8, 0x74, 0x4f, 0x63, 0, 0, 0, 2],
        counts.len() == 256,
        0 <= counts[255] < 0x1_0000_0000,
        fan == in_fours(counts),
        data == head + fan + after,
    ensures
        is_v2(data),
        be32(data, 4) == 2,
        object_count(data) == counts[255],
{
    lemma_fours(counts, 255);
    assert(data[0] == head[0] && data[1] == head[1] && data[2] == head[2] && data[3] == head[3] && data[4] == head[4]
        && data[5] == head[5] && data[6] == head[6] && data[7] == head[7]);
    assert('t' as u8 == 0x74 && 'O' as u8 == 0x4f && 'c' as u8 == 0x63);
    lemma_part(head, fan, after, 1020, 1024);
    lemma_be32_of(data, 1028, counts[255]);
}

proof fn lemma_id_in(data: Seq<u8>, before: Seq<u8>, after: Seq<u8>, ids: Seq<Seq<u8>>, i: int)
    requires
        is_v2(data),
        before.len() == 1032,
        data == before + side_by_side(ids, 20) + after,
        0 <= i < ids.len(),
        ids[i].len() == 20,
    ensures
        id_at(data, i) == ids[i],
{
    lemma_side_by_side(ids, 20, i);
    lemma_part(before, side_by_side(ids, 20), after, 20 * i, 20 * i + 20);
}

proof fn lemma_offset_in(data: Seq<u8>, before: Seq<u8>, after: Seq<u8>, offsets: Seq<int>, i: int)
    requires
        before.len() == 1032 + 24 * offsets.len(),
        data == before + in_fours(offsets) + after,
        0 <= i < offsets.len(),
        0 <= offsets[i] < 0x1_0000_0000,
    ensures
        be32(data, 1032 + 24 * offsets.len() + 4 * i) == offsets[i],
{
    lemma_fours(offsets, i);
    lemma_part(before, in_fours(offsets), after, 4 * i, 4 * i + 4);
    lemma_be32_of(data, 1032 + 24 * offsets.len() + 4 * i, offsets[i]);
}

proof fn lemma_far_in(data: Seq<u8>, before: Seq<u8>, after: Seq<u8>, far: Seq<int>, k: int)
    requires
        data == before + side_by_side(
            far.map_values(|x: int| four_bytes(x / 0x1_0000_0000) + four_bytes(x % 0x1_0000_0000)),
            8,
        ) + after,
        0 <= k < far.len(),
        0 <= far[k] < 0x1_0000_0000_0000_0000,
    ensures
        be64(data, before.len() + 8 * k) == far[k],
{
    let eights = far.map_values(|x: int| four_bytes(x / 0x1_0000_0000) + four_bytes(x % 0x1_0000_0000));
    let large = side_by_side(eights, 8);
    let v = far[k];
    let high = four_bytes(v / 0x1_0000_0000);
    let low = four_bytes(v % 0x1_0000_0000);
    assert(eights[k] == high + low);
    lemma_side_by_side(eights, 8, k);
    lemma_part(before, large, after, 8 * k, 8 * k + 8);
    let at = before.len() + 8 * k;
    let e = data.subrange(at, at + 8);
    assert(e == high + low);
    assert(data.subrange(at, at + 4) =~= e.subrange(0, 4));
    assert(e.subrange(0, 4) =~= high);
    assert(data.subrange(at + 4, at + 8) =~= e.subrange(4, 8));
    assert(e.subrange(4, 8) =~= low);
    lemma_be32_of(data, at, v / 0x1_0000_0000);
    lemma_be32_of(data, at + 4, v % 0x1_0000_0000);
}

} // verus!
