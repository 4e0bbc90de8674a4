//! The data of a pack: its objects, each whole or as a chain of deltas.
use crate::bytes::{from, push_all, to_vec};
use crate::git::error::GitError;
use crate::git::object::ObjectKind;
use crate::git::oid::ObjectId;
use crate::git::pack::cache::{cached_at, cached_object, CachedObject, TraitDecodeEntry};
use crate::git::pack::delta::{applied, apply, decode_header_size, header_size, lemma_varint_end, two_64};
use crate::git::pack::entry::{header_read, read_header, DataEntry, Header, HeaderView};
use crate::git::pack::index::{be32, found_at, offset_at, read_u32, IndexFile};
use crate::git::zlib::{inflate_whole, inflated_whole};
use vstd::prelude::*;

verus! {

/// The version of a pack.
#[derive(Clone, Copy, Debug, PartialEq, Eq, Structural)]
pub enum PackVersion {
    V2,
    V3,
}

/// The checksum CRC-32 of `data`.
pub uninterp spec fn crc32_of(data: Seq<u8>) -> u32;

/// Calls `crc32fast::hash`: the checksum CRC-32 of `data`.
#[verifier::external_body]
pub(crate) fn crc32(data: &[u8]) -> (r: u32)
    ensures
        r == crc32_of(data@),
{
    crc32fast::hash(data)
}

/// The version and the number of objects that the first 12 bytes of a pack give.
pub open spec fn pack_header(data: Seq<u8>) -> Option<(PackVersion, u32)> {
    if data[0] == 'P' as u8 && data[1] == 'A' as u8 && data[2] == 'C' as u8 && data[3]
        == 'K' as u8 {
        if be32(data, 4) == 2 {
            Some((PackVersion::V2, be32(data, 8) as u32))
        } else if be32(data, 4) == 3 {
            Some((PackVersion::V3, be32(data, 8) as u32))
        } else {
            None
        }
    } else {
        None
    }
}

/// Reads the version and the number of objects that the first 12 bytes of a pack give.
pub fn decode_header(data: &[u8]) -> (r: Result<(PackVersion, u32), GitError>)
    requires
        data@.len() >= 12,
    ensures
        r is Ok <==> pack_header(data@) is Some,
        r matches Ok(x) ==> pack_header(data@) == Some(x),
        r matches Err(e) ==> e is Gen,
{
    if !(data[0] == 'P' as u8 && data[1] == 'A' as u8 && data[2] == 'C' as u8 && data[3]
        == 'K' as u8) {
        return Err(GitError::Gen);
    }
    let version: u32 = read_u32(data, 4);
    let kind = if version == 2 {
        PackVersion::V2
    } else if version == 3 {
        PackVersion::V3
    } else {
        return Err(GitError::Gen);
    };
    Ok((kind, read_u32(data, 8)))
}

/// The entry that begins at `offset`: its header, the size of its object, and the length of
/// the header. A header longer than 65535 bytes is none.
pub open spec fn entry_at(data: Seq<u8>, offset: u64) -> Option<(HeaderView, u64, int)> {
    if offset > data.len() {
        None
    } else {
        match header_read(from(data, offset as int)) {
            Some((h, size, n)) if n <= u16::MAX && offset + n <= u64::MAX => Some((h, size, n)),
            _ => None,
        }
    }
}

/// An entry as a pack describes it: what it holds, the size of the object, where the
/// compressed data begins, and where the entry begins.
pub struct EntryView {
    pub header: HeaderView,
    pub size: u64,
    pub data_offset: u64,
    pub pack_offset: int,
}

impl View for DataEntry {
    type V = EntryView;

    open spec fn view(&self) -> EntryView {
        EntryView {
            header: self.header@,
            size: self.decompressed_size,
            data_offset: self.data_offset,
            pack_offset: self.data_offset - self.header_len(),
        }
    }
}

/// The entry that begins at `offset`.
pub open spec fn entry_view_at(data: Seq<u8>, offset: u64) -> Option<EntryView> {
    match entry_at(data, offset) {
        None => None,
        Some((header, size, n)) => Some(
            EntryView {
                header,
                size,
                data_offset: (offset + n) as u64,
                pack_offset: offset as int,
            },
        ),
    }
}

/// An object from elsewhere: its id, its kind and its bytes.
pub struct ExternalView {
    pub id: Seq<u8>,
    pub kind: ObjectKind,
    pub data: Seq<u8>,
}

/// What a chain of deltas builds on.
pub enum BaseView {
    /// An object that the cache holds.
    Cached(CachedObject),
    /// An object from elsewhere.
    External { kind: ObjectKind, data: Seq<u8> },
    /// An object that the pack holds whole.
    Whole(EntryView),
}

/// Why a chain of deltas cannot be followed.
pub enum ChainError {
    Corrupt,
    Unresolved(Seq<u8>),
}

/// Where the objects that deltas build on are looked for.
pub struct Sources {
    pub data: Seq<u8>,
    pub pack_id: u32,
    pub index: Seq<u8>,
    pub external: Option<ExternalView>,
    pub cached: Seq<CachedObject>,
}

/// The entry that the delta `e` builds on in the pack.
pub open spec fn base_in_pack(src: Sources, e: EntryView) -> Option<EntryView> {
    match e.header {
        HeaderView::OfsDelta { base_distance } => if base_distance == 0 || base_distance
            > e.pack_offset {
            None
        } else {
            entry_view_at(src.data, (e.pack_offset - base_distance) as u64)
        },
        HeaderView::RefDelta { base_id } => match found_at(src.index, base_id) {
            None => None,
            Some(i) => entry_view_at(src.data, offset_at(src.index, i) as u64),
        },
        _ => None,
    }
}

/// Follows the chain of deltas from `e` for up to `n` steps, where the deltas `chain` come
/// before it and take `total` bytes: the deltas, and what they build on. `None` where `n`
/// steps are too few.
pub open spec fn chain_from(
    src: Sources,
    e: EntryView,
    chain: Seq<EntryView>,
    total: int,
    n: nat,
) -> Option<Result<(Seq<EntryView>, int, BaseView), ChainError>>
    decreases n,
{
    if !e.header.is_delta() {
        Some(Ok((chain, total, BaseView::Whole(e))))
    } else if cached_at(src.cached, src.pack_id, e.data_offset) is Some {
        Some(
            Ok(
                (
                    chain,
                    total,
                    BaseView::Cached(cached_object(src.cached, src.pack_id, e.data_offset)->0),
                ),
            ),
        )
    } else if total + e.size >= two_64() || e.size > usize::MAX {
        Some(Err(ChainError::Corrupt))
    } else {
        match base_in_pack(src, e) {
            Some(next) => if n == 0 {
                None
            } else {
                chain_from(src, next, chain.push(e), total + e.size, (n - 1) as nat)
            },
            None => match (e.header, src.external) {
                (HeaderView::RefDelta { base_id }, Some(x)) if x.id == base_id => Some(
                    Ok(
                        (
                            chain.push(e),
                            total + e.size,
                            BaseView::External { kind: x.kind, data: x.data },
                        ),
                    ),
                ),
                (HeaderView::RefDelta { base_id }, _) => Some(
                    Err(ChainError::Unresolved(base_id)),
                ),
                _ => Some(Err(ChainError::Corrupt)),
            },
        }
    }
}

/// The chain of deltas from `e` comes to an end.
pub open spec fn chain_ends(src: Sources, e: EntryView) -> bool {
    exists|n: nat| chain_from(src, e, seq![], 0, n) is Some
}

/// The chain of deltas from `e` comes to an end after at most `n` steps, whatever is cached.
pub open spec fn chain_ends_within(src: Sources, e: EntryView, n: nat) -> bool {
    chain_from(Sources { cached: seq![], ..src }, e, seq![], 0, n) is Some
}

/// What the cache holds only makes a chain of deltas shorter.
proof fn lemma_cache_shortens(src: Sources, e: EntryView, chain: Seq<EntryView>, total: int, n: nat)
    requires
        chain_from(Sources { cached: seq![], ..src }, e, chain, total, n) is Some,
    ensures
        chain_from(src, e, chain, total, n) is Some,
    decreases n,
{
    let bare = Sources { cached: seq![], ..src };
    if e.header.is_delta() && !(total + e.size >= two_64() || e.size > usize::MAX) {
        assert(cached_at(bare.cached, bare.pack_id, e.data_offset) is None);
        assert(base_in_pack(bare, e) == base_in_pack(src, e));
        if let Some(next) = base_in_pack(src, e) {
            if n > 0 {
                lemma_cache_shortens(src, next, chain.push(e), total + e.size, (n - 1) as nat);
            }
        }
    }
}

/// A chain of deltas that ends within some steps comes to an end.
pub proof fn lemma_chain_ends(src: Sources, e: EntryView, n: nat)
    requires
        chain_ends_within(src, e, n),
    ensures
        chain_ends(src, e),
{
    lemma_cache_shortens(src, e, seq![], 0, n);
}

/// The chain of deltas from `e`, and what they build on.
pub open spec fn chain_of(src: Sources, e: EntryView) -> Result<
    (Seq<EntryView>, int, BaseView),
    ChainError,
> {
    let n = choose|n: nat| chain_from(src, e, seq![], 0, n) is Some;
    chain_from(src, e, seq![], 0, n)->0
}

proof fn lemma_more_steps(
    src: Sources,
    e: EntryView,
    chain: Seq<EntryView>,
    total: int,
    n: nat,
    m: nat,
)
    requires
        chain_from(src, e, chain, total, n) is Some,
        n <= m,
    ensures
        chain_from(src, e, chain, total, m) == chain_from(src, e, chain, total, n),
    decreases n,
{
    if e.header.is_delta() && !(cached_at(src.cached, src.pack_id, e.data_offset) is Some) && !(total
        + e.size >= two_64() || e.size > usize::MAX) {
        if let Some(next) = base_in_pack(src, e) {
            lemma_more_steps(
                src,
                next,
                chain.push(e),
                total + e.size,
                (n - 1) as nat,
                (m - 1) as nat,
            );
        }
    }
}

/// The compressed data of the entry `e`: how much of the pack it takes, and what it gives.
pub open spec fn entry_data(data: Seq<u8>, e: EntryView) -> Option<(nat, Seq<u8>)> {
    if e.data_offset >= data.len() {
        None
    } else {
        inflated_whole(from(data, e.data_offset as int), e.size as nat)
    }
}

/// How much of the pack the compressed data of the entry `e` takes.
pub open spec fn entry_length(data: Seq<u8>, e: EntryView) -> nat {
    match entry_data(data, e) {
        None => 0,
        Some((used, _)) => used,
    }
}

/// A delta: the size of its base, the size of its result, its instructions, and all of its
/// bytes.
pub struct DeltaView {
    pub base_size: int,
    pub result_size: int,
    pub instructions: Seq<u8>,
    pub raw: Seq<u8>,
}

/// The delta that the entry `e` holds.
pub open spec fn delta_of(data: Seq<u8>, e: EntryView) -> Option<DeltaView> {
    match entry_data(data, e) {
        None => None,
        Some((_, raw)) => match header_size(raw) {
            None => None,
            Some((base_size, n)) => match header_size(from(raw, n)) {
                None => None,
                Some((result_size, m)) => if base_size <= usize::MAX && result_size <= usize::MAX {
                    Some(DeltaView { base_size, result_size, instructions: from(raw, n + m), raw })
                } else {
                    None
                },
            },
        },
    }
}

/// The deltas of the first `k` entries of `chain`, the last entry first: the order in which
/// they are applied.
pub open spec fn deltas_of(data: Seq<u8>, chain: Seq<EntryView>, k: int) -> Option<Seq<DeltaView>>
    decreases k,
{
    if k <= 0 {
        Some(seq![])
    } else {
        match (delta_of(data, chain[k - 1]), deltas_of(data, chain, k - 1)) {
            (Some(d), Some(rest)) => Some(seq![d] + rest),
            _ => None,
        }
    }
}

/// The larger of two numbers.
pub open spec fn larger(a: int, b: int) -> int {
    if a < b {
        b
    } else {
        a
    }
}

/// The largest size that the deltas from `i` on name, or `least`.
pub open spec fn largest_size(deltas: Seq<DeltaView>, i: int, least: int) -> int
    decreases deltas.len() - i,
{
    if i >= deltas.len() {
        least
    } else {
        largest_size(
            deltas,
            i + 1,
            larger(larger(least, deltas[i].base_size), deltas[i].result_size),
        )
    }
}

/// The bytes of the deltas from `i` on, one after the other.
pub open spec fn raw_bytes(deltas: Seq<DeltaView>, i: int) -> Seq<u8>
    decreases deltas.len() - i,
{
    if i >= deltas.len() {
        seq![]
    } else {
        deltas[i].raw + raw_bytes(deltas, i + 1)
    }
}

/// `s` cut or filled with zeros to `n` bytes.
pub open spec fn fitted(s: Seq<u8>, n: int) -> Seq<u8> {
    Seq::new(
        n as nat,
        |i: int|
            if i < s.len() {
                s[i]
            } else {
                0u8
            },
    )
}

/// What the deltas from `i` on build: each reads the beginning of `source` and writes the
/// beginning of `target`, and then the two change places.
pub open spec fn built(source: Seq<u8>, target: Seq<u8>, deltas: Seq<DeltaView>, i: int) -> Option<
    Seq<u8>,
>
    decreases deltas.len() - i,
{
    if i >= deltas.len() {
        Some(source)
    } else {
        let d = deltas[i];
        match applied(source.take(d.base_size), d.instructions, d.result_size) {
            None => None,
            Some(out) => built(out + from(target, d.result_size), source, deltas, i + 1),
        }
    }
}

/// The bytes that a base puts in front of the deltas while they are read.
pub open spec fn base_bytes(base: BaseView) -> Seq<u8> {
    match base {
        BaseView::Cached(o) => o.data,
        BaseView::External { data, .. } => data,
        BaseView::Whole(_) => seq![],
    }
}

/// The size of a base that the pack holds whole.
pub open spec fn whole_size(base: BaseView) -> int {
    match base {
        BaseView::Whole(e) => e.size as int,
        _ => 0,
    }
}

/// The object that the deltas of `chain` build on `base`, where the deltas take `total`
/// bytes. `None` where a delta or the base is corrupt, or more memory is needed than there
/// can be.
pub open spec fn object_built(
    data: Seq<u8>,
    chain: Seq<EntryView>,
    total: int,
    base: BaseView,
) -> Option<Seq<u8>> {
    match deltas_of(data, chain, chain.len() as int) {
        None => None,
        Some(deltas) => {
            let big = largest_size(deltas, 0, whole_size(base));
            let work = fitted(base_bytes(base) + raw_bytes(deltas, 0), 2 * big);
            if 2 * big + total > isize::MAX || base_bytes(base).len() > 2 * big {
                None
            } else {
                match base {
                    BaseView::Whole(e) => match entry_data(data, e) {
                        None => None,
                        Some((_, whole)) => match built(
                            whole + work.subrange(whole.len() as int, big),
                            work.subrange(big, 2 * big),
                            deltas,
                            0,
                        ) {
                            None => None,
                            Some(out) => Some(out.take(deltas.last().result_size)),
                        },
                    },
                    _ => match built(
                        work.subrange(0, big),
                        work.subrange(big, 2 * big),
                        deltas,
                        0,
                    ) {
                        None => None,
                        Some(out) => Some(out.take(deltas.last().result_size)),
                    },
                }
            }
        },
    }
}

/// The kind of an object that builds on `base`.
pub open spec fn base_kind(base: BaseView) -> ObjectKind {
    match base {
        BaseView::Cached(o) => o.kind,
        BaseView::External { kind, .. } => kind,
        BaseView::Whole(e) => e.header.kind()->0,
    }
}

/// A decoded object: its kind, how much of the pack its entry takes, its bytes, and how many
/// deltas were applied.
pub struct Decoded {
    pub kind: ObjectKind,
    pub compressed_size: nat,
    pub data: Seq<u8>,
    pub num_deltas: nat,
}

/// The object that the entry `e` holds.
pub open spec fn decoded(src: Sources, e: EntryView) -> Result<Decoded, ChainError> {
    if !e.header.is_delta() {
        if e.size > isize::MAX {
            Err(ChainError::Corrupt)
        } else {
            match entry_data(src.data, e) {
                None => Err(ChainError::Corrupt),
                Some((used, data)) => Ok(
                    Decoded {
                        kind: e.header.kind()->0,
                        compressed_size: used,
                        data,
                        num_deltas: 0,
                    },
                ),
            }
        }
    } else {
        match chain_of(src, e) {
            Err(err) => Err(err),
            Ok((chain, total, base)) => if chain.len() == 0 {
                match base {
                    BaseView::Cached(o) => Ok(
                        Decoded {
                            kind: o.kind,
                            compressed_size: o.compressed_size as nat,
                            data: o.data,
                            num_deltas: 0,
                        },
                    ),
                    _ => Err(ChainError::Corrupt),
                }
            } else {
                match object_built(src.data, chain, total, base) {
                    None => Err(ChainError::Corrupt),
                    Some(data) => Ok(
                        Decoded {
                            kind: base_kind(base),
                            compressed_size: entry_length(src.data, chain[0]),
                            data,
                            num_deltas: chain.len(),
                        },
                    ),
                }
            },
        }
    }
}

/// An object from elsewhere that a delta may build on.
#[derive(Clone, Copy, Debug)]
pub struct External<'a> {
    pub id: ObjectId,
    pub kind: ObjectKind,
    pub data: &'a [u8],
}

/// Where the objects that deltas name by their ids are looked for: in the pack, by its index,
/// and then elsewhere.
#[derive(Debug)]
pub struct Bases<'a> {
    pub index: &'a IndexFile,
    pub external: Option<External<'a>>,
}

impl<'a> Bases<'a> {
    /// The object from elsewhere.
    pub open spec fn external_view(&self) -> Option<ExternalView> {
        match self.external {
            None => None,
            Some(x) => Some(ExternalView { id: x.id@, kind: x.kind, data: x.data@ }),
        }
    }
}

/// What a chain of deltas builds on.
enum Base {
    Cached { kind: ObjectKind, compressed_size: usize, data: Vec<u8> },
    External { kind: ObjectKind, data: Vec<u8> },
    Whole(DataEntry),
}

impl Base {
    spec fn is(self, b: BaseView) -> bool {
        match (self, b) {
            (Base::Cached { kind, compressed_size, data }, BaseView::Cached(o)) => kind == o.kind
                && compressed_size == o.compressed_size && data@ == o.data,
            (
                Base::External { kind, data },
                BaseView::External { kind: k, data: d },
            ) => kind == k && data@ == d,
            (Base::Whole(e), BaseView::Whole(v)) => e@ == v && e.wf() && !v.header.is_delta(),
            _ => false,
        }
    }
}

/// The entries of `chain`.
pub open spec fn entries_view(chain: Seq<DataEntry>) -> Seq<EntryView> {
    chain.map_values(|e: DataEntry| e@)
}

/// The error that `r` holds is the one that `err` says.
pub open spec fn chain_error_is(r: GitError, err: ChainError) -> bool {
    match err {
        ChainError::Corrupt => r is Gen,
        ChainError::Unresolved(id) => r matches GitError::DeltaBaseUnresolved(base_id) && base_id@
            == id,
    }
}

/// What came out of decoding an entry.
#[derive(Clone, Copy, Debug)]
pub struct PackOutcome {
    pub kind: ObjectKind,
    pub num_deltas: u32,
    pub decompressed_size: u64,
    pub compressed_size: usize,
    pub object_size: u64,
}

impl PackOutcome {
    /// The outcome for an entry that no delta was applied for.
    pub fn from_object_entry(kind: ObjectKind, entry: &DataEntry, compressed_size: usize) -> (r:
        PackOutcome)
        ensures
            r.kind == kind,
            r.num_deltas == 0,
            r.decompressed_size == entry.decompressed_size,
            r.compressed_size == compressed_size,
            r.object_size == entry.decompressed_size,
    {
        PackOutcome {
            kind,
            num_deltas: 0,
            decompressed_size: entry.decompressed_size,
            compressed_size,
            object_size: entry.decompressed_size,
        }
    }
}

/// A delta that was read: its instructions are the bytes of `raw` from `start` on.
struct Delta {
    base_size: usize,
    result_size: usize,
    raw: Vec<u8>,
    start: usize,
}

impl Delta {
    spec fn is(self, d: DeltaView) -> bool {
        &&& self.base_size == d.base_size
        &&& self.result_size == d.result_size
        &&& self.raw@ == d.raw
        &&& self.start <= self.raw@.len()
        &&& from(self.raw@, self.start as int) == d.instructions
    }
}

spec fn deltas_are(s: Seq<Delta>, d: Seq<DeltaView>) -> bool {
    s.len() == d.len() && forall|i: int| 0 <= i < s.len() ==> (#[trigger] s[i]).is(d[i])
}

/// The data of a pack.
#[derive(Debug)]
pub struct DataFile {
    data: Vec<u8>,
    id: u32,
}

impl View for DataFile {
    type V = Seq<u8>;

    closed spec fn view(&self) -> Seq<u8> {
        self.data@
    }
}

impl DataFile {
    /// What tells this pack from others.
    pub closed spec fn pack_id(&self) -> u32 {
        self.id
    }

    /// Where the objects that deltas build on are looked for.
    pub open spec fn sources(&self, bases: &Bases<'_>, cached: Seq<CachedObject>) -> Sources {
        Sources {
            data: self@,
            pack_id: self.pack_id(),
            index: bases.index@,
            external: bases.external_view(),
            cached,
        }
    }

    /// Reads a pack that was found at `path`.
    pub fn from_data(data: Vec<u8>, path: &[u8]) -> (r: Result<DataFile, GitError>)
        ensures
            r is Ok <==> data@.len() >= 32 && pack_header(data@) is Some,
            r matches Ok(f) ==> f@ == data@ && f.pack_id() == crc32_of(path@),
            r matches Err(e) ==> e is Gen,
    {
        let id: u32 = crc32(path);
        if data.len() < 32 {
            return Err(GitError::Gen);
        }
        match decode_header(data.as_slice()) {
            Ok(_) => Ok(DataFile { data, id }),
            Err(e) => Err(e),
        }
    }

    /// The pack, told from others by `id`.
    pub fn with_id(self, id: u32) -> (r: DataFile)
        ensures
            r@ == self@,
            r.pack_id() == id,
    {
        DataFile { data: self.data, id }
    }

    /// The entry that begins at `offset`. An entry with a header longer than 65535 bytes is
    /// an error.
    pub fn entry(&self, offset: u64) -> (r: Result<DataEntry, GitError>)
        ensures
            r is Ok <==> entry_view_at(self@, offset) is Some,
            r matches Ok(e) ==> entry_view_at(self@, offset) == Some(e@) && e.wf(),
            r matches Err(e) ==> e is Gen,
    {
        let len: usize = self.data.len();
        if offset > len as u64 {
            return Err(GitError::Gen);
        }
        let bytes: &[u8] = self.data.as_slice();
        match read_header(&bytes[offset as usize..len]) {
            Ok((header, decompressed_size, n)) => {
                if n > 0xffff || n as u64 > u64::MAX - offset {
                    return Err(GitError::Gen);
                }
                Ok(
                    DataEntry {
                        header,
                        decompressed_size,
                        data_offset: offset + n as u64,
                        encoded_header_size: n as u16,
                    },
                )
            },
            Err(e) => Err(e),
        }
    }

    /// Decompresses the data of an entry: how much of the pack it takes, and what it gives.
    fn decompress_entry(&self, e: &DataEntry) -> (r: Result<(usize, Vec<u8>), GitError>)
        requires
            e.decompressed_size <= isize::MAX,
        ensures
            r is Ok <==> entry_data(self@, e@) is Some,
            r matches Ok(x) ==> entry_data(self@, e@) == Some((x.0 as nat, x.1@)),
            r matches Ok(x) ==> x.1@.len() == e.decompressed_size,
            r matches Err(e) ==> e is Gen,
    {
        let len: usize = self.data.len();
        if e.data_offset >= len as u64 {
            return Err(GitError::Gen);
        }
        let bytes: &[u8] = self.data.as_slice();
        inflate_whole(&bytes[e.data_offset as usize..len], e.decompressed_size as usize)
    }

    /// The entry that a delta builds on in the pack, by its id.
    fn base_by_id(&self, id: &ObjectId, bases: &Bases<'_>) -> (r: Option<DataEntry>)
        requires
            bases.index.wf(),
        ensures
            match found_at(bases.index@, id@) {
                None => r is None,
                Some(i) => match entry_view_at(self@, offset_at(bases.index@, i) as u64) {
                    None => r is None,
                    Some(v) => r matches Some(e) && e@ == v && e.wf(),
                },
            },
    {
        match bases.index.pack_offset_by_id(id.as_oid()) {
            None => None,
            Some(offset) => match self.entry(offset) {
                Ok(e) => Some(e),
                Err(_) => None,
            },
        }
    }

    /// Follows the chain of deltas from `first`.
    fn follow_chain<C: TraitDecodeEntry>(
        &self,
        first: &DataEntry,
        bases: &Bases<'_>,
        cache: &mut C,
    ) -> (r: Result<(Vec<DataEntry>, u64, Base), GitError>)
        requires
            first.wf(),
            first.header@.is_delta(),
            bases.index.wf(),
            old(cache).wf(),
            chain_ends(self.sources(bases, old(cache).entries()), first@),
        ensures
            final(cache).wf(),
            forall|x: CachedObject| #[trigger] final(cache).keeps(x) == old(cache).keeps(x),
            forall|x: CachedObject|
                final(cache).entries().contains(x) ==> old(cache).entries().contains(x),
            match chain_of(self.sources(bases, old(cache).entries()), first@) {
                Err(err) => r matches Err(e) && chain_error_is(e, err),
                Ok((chain, total, base)) => r matches Ok(x) && entries_view(x.0@) == chain && x.1
                    == total && x.2.is(base) && (chain.len() > 0 ==> chain[0] == first@) && (
                chain.len() == 0 ==> base is Cached),
            },
    {
        let ghost src = self.sources(bases, cache.entries());
        let ghost all = choose|n: nat| chain_from(src, first@, seq![], 0, n) is Some;
        let ghost goal = chain_from(src, first@, seq![], 0, all);
        let ghost mut left: nat = all;
        let mut cursor: DataEntry = *first;
        let mut chain: Vec<DataEntry> = Vec::new();
        let mut total: u64 = 0;
        assert(entries_view(chain@) =~= seq![]);
        while cursor.header.is_delta()
            invariant
                bases.index.wf(),
                cache.wf(),
                cache.entries() == old(cache).entries(),
                forall|x: CachedObject| #[trigger] cache.keeps(x) == old(cache).keeps(x),
                src == self.sources(bases, old(cache).entries()),
                cursor.wf(),
                goal is Some,
                goal == chain_from(src, first@, seq![], 0, all),
                all == (choose|n: nat| chain_from(src, first@, seq![], 0, n) is Some),
                goal == chain_from(src, cursor@, entries_view(chain@), total as int, left),
                chain@.len() == 0 ==> cursor@ == first@ && cursor@.header.is_delta(),
                chain@.len() > 0 ==> chain@[0]@ == first@,
            decreases left,
        {
            let mut found: Vec<u8> = Vec::new();
            let hit = cache.get(self.id, cursor.data_offset, &mut found);
            if let Some((kind, compressed_size)) = hit {
                proof {
                    let i = cached_at(src.cached, src.pack_id, cursor.data_offset)->0;
                    crate::git::pack::data::lemma_cached_at(src.cached, src.pack_id, cursor.data_offset);
                    lemma_to_front_contains(src.cached, i);
                }
                return Ok((chain, total, Base::Cached { kind, compressed_size, data: found }));
            }
            let next_total: u64 = match total.checked_add(cursor.decompressed_size) {
                Some(t) => t,
                None => {
                    return Err(GitError::Gen);
                },
            };
            if cursor.decompressed_size > usize::MAX as u64 {
                return Err(GitError::Gen);
            }
            let ghost before = chain@;
            chain.push(cursor);
            assert(entries_view(chain@) =~= entries_view(before).push(cursor@));
            let next = match cursor.header {
                Header::OfsDelta { base_distance } => {
                    let offset: u64 = match cursor.checked_base_pack_offset(base_distance) {
                        Some(o) => o,
                        None => {
                            return Err(GitError::Gen);
                        },
                    };
                    match self.entry(offset) {
                        Ok(e) => e,
                        Err(e) => {
                            return Err(e);
                        },
                    }
                },
                Header::RefDelta { base_id } => match self.base_by_id(&base_id, bases) {
                    Some(e) => e,
                    None => {
                        if let Some(x) = &bases.external {
                            if base_id.same(&x.id) {
                                return Ok(
                                    (
                                        chain,
                                        next_total,
                                        Base::External { kind: x.kind, data: to_vec(x.data) },
                                    ),
                                );
                            }
                        }
                        return Err(GitError::DeltaBaseUnresolved(base_id));
                    },
                },
                _ => {
                    return Err(GitError::Gen);
                },
            };
            proof {
                left = (left - 1) as nat;
            }
            cursor = next;
            total = next_total;
        }
        Ok((chain, total, Base::Whole(cursor)))
    }
}

impl DataFile {
    /// The entry that a delta builds on in the pack.
    fn base_of(&self, e: &DataEntry, bases: &Bases<'_>) -> (r: Option<DataEntry>)
        requires
            e.wf(),
            bases.index.wf(),
        ensures
            match base_in_pack(self.sources(bases, seq![]), e@) {
                None => r is None,
                Some(v) => r matches Some(x) && x@ == v && x.wf(),
            },
    {
        match e.header {
            Header::OfsDelta { base_distance } => match e.checked_base_pack_offset(base_distance) {
                None => None,
                Some(offset) => match self.entry(offset) {
                    Ok(x) => Some(x),
                    Err(_) => None,
                },
            },
            Header::RefDelta { base_id } => self.base_by_id(&base_id, bases),
            _ => None,
        }
    }

    /// Whether the chain of deltas from `first` comes to an end before it is longer than the pack is large,
    /// whatever is cached. A chain that is longer goes round in a circle.
    pub fn chain_is_finite(&self, first: &DataEntry, bases: &Bases<'_>) -> (r: bool)
        requires
            first.wf(),
            bases.index.wf(),
        ensures
            r == chain_ends_within(self.sources(bases, seq![]), first@, self@.len()),
    {
        let ghost src = self.sources(bases, seq![]);
        let ghost mut chain: Seq<EntryView> = seq![];
        let mut left: usize = self.data.len();
        let mut cursor: DataEntry = *first;
        let mut total: u64 = 0;
        let ghost goal = chain_from(src, first@, seq![], 0, self@.len());
        while cursor.header.is_delta()
            invariant
                bases.index.wf(),
                cursor.wf(),
                src == self.sources(bases, seq![]),
                goal == chain_from(src, first@, seq![], 0, self@.len()),
                goal == chain_from(src, cursor@, chain, total as int, left as nat),
            decreases left,
        {
            assert(cached_at(src.cached, src.pack_id, cursor@.data_offset) is None);
            let next_total: u64 = match total.checked_add(cursor.decompressed_size) {
                Some(t) => t,
                None => {
                    return true;
                },
            };
            if cursor.decompressed_size > usize::MAX as u64 {
                return true;
            }
            match self.base_of(&cursor, bases) {
                None => {
                    return true;
                },
                Some(next) => {
                    if left == 0 {
                        return false;
                    }
                    proof {
                        chain = chain.push(cursor@);
                    }
                    left -= 1;
                    cursor = next;
                    total = next_total;
                },
            }
        }
        true
    }
}

pub proof fn lemma_cached_at(entries: Seq<CachedObject>, pack_id: u32, offset: u64)
    ensures
        cached_at(entries, pack_id, offset) matches Some(i) ==> 0 <= i < entries.len()
            && entries[i].pack_id == pack_id && entries[i].offset == offset,
    decreases entries.len(),
{
    if entries.len() > 0 {
        lemma_cached_at(entries.skip(1), pack_id, offset);
    }
}

proof fn lemma_to_front_contains(entries: Seq<CachedObject>, i: int)
    requires
        0 <= i < entries.len(),
    ensures
        forall|x: CachedObject|
            crate::git::pack::cache::to_front(entries, i).contains(x) ==> entries.contains(x),
{
    let t = crate::git::pack::cache::to_front(entries, i);
    assert forall|x: CachedObject| t.contains(x) implies entries.contains(x) by {
        let j = choose|j: int| 0 <= j < t.len() && t[j] == x;
        if j == 0 {
            assert(entries[i] == x);
        } else if j - 1 < i {
            assert(entries[j - 1] == x);
        } else {
            assert(entries[j] == x);
        }
    }
}

/// The deltas that were read, the one that is applied first being first.
struct ReadDeltas {
    deltas: Vec<Delta>,
    consumed: usize,
}

impl DataFile {
    /// Reads the delta that an entry holds, and how much of the pack it takes.
    fn read_delta(&self, e: &DataEntry) -> (r: Result<(usize, Delta), GitError>)
        requires
            e.decompressed_size <= isize::MAX,
        ensures
            r is Ok <==> delta_of(self@, e@) is Some,
            r matches Ok(x) ==> x.1.is(delta_of(self@, e@)->0) && x.0 == entry_length(self@, e@)
                && x.1.raw@.len() == e.decompressed_size,
            r matches Err(e) ==> e is Gen,
    {
        let (consumed, raw) = match self.decompress_entry(e) {
            Ok(x) => x,
            Err(e) => {
                return Err(e);
            },
        };
        let bytes: &[u8] = raw.as_slice();
        let len: usize = bytes.len();
        proof {
            lemma_varint_end(raw@, 0);
        }
        let (base_size, n) = match decode_header_size(bytes) {
            Ok(x) => x,
            Err(e) => {
                return Err(e);
            },
        };
        if base_size > usize::MAX as u64 {
            return Err(GitError::Gen);
        }
        proof {
            lemma_varint_end(from(raw@, n as int), 0);
        }
        let (result_size, m) = match decode_header_size(&bytes[n..len]) {
            Ok(x) => x,
            Err(e) => {
                return Err(e);
            },
        };
        if result_size > usize::MAX as u64 {
            return Err(GitError::Gen);
        }
        Ok(
            (
                consumed,
                Delta {
                    base_size: base_size as usize,
                    result_size: result_size as usize,
                    start: n + m,
                    raw,
                },
            ),
        )
    }

    /// Reads the deltas of a chain, the last of the chain first, and how much of the pack the
    /// first of the chain takes.
    fn read_deltas(&self, chain: &Vec<DataEntry>) -> (r: Result<ReadDeltas, GitError>)
        requires
            chain@.len() > 0,
            forall|i: int|
                0 <= i < chain@.len() ==> (#[trigger] chain@[i]).decompressed_size <= isize::MAX,
        ensures
            r is Ok <==> deltas_of(self@, entries_view(chain@), chain@.len() as int) is Some,
            r matches Ok(x) ==> deltas_are(
                x.deltas@,
                deltas_of(self@, entries_view(chain@), chain@.len() as int)->0,
            ) && x.deltas@.len() == chain@.len() && x.consumed == entry_length(
                self@,
                chain@[0]@,
            ),
            r matches Err(e) ==> e is Gen,
    {
        let ghost entries = entries_view(chain@);
        let ghost goal = deltas_of(self@, entries, chain@.len() as int);
        let ghost mut seen: Seq<DeltaView> = seq![];
        let mut deltas: Vec<Delta> = Vec::new();
        let mut consumed: usize = 0;
        let mut k: usize = chain.len();
        assert(goal matches Some(g) ==> seen + g =~= g);
        while k > 0
            invariant
                0 <= k <= chain@.len(),
                entries == entries_view(chain@),
                goal == deltas_of(self@, entries, chain@.len() as int),
                forall|i: int|
                    0 <= i < chain@.len() ==> (#[trigger] chain@[i]).decompressed_size
                        <= isize::MAX,
                deltas_are(deltas@, seen),
                deltas@.len() == chain@.len() - k,
                goal is Some <==> deltas_of(self@, entries, k as int) is Some,
                goal is Some ==> goal->0 == seen + deltas_of(self@, entries, k as int)->0,
                k == 0 ==> consumed == entry_length(self@, chain@[0]@),
                chain@.len() > 0,
            decreases k,
        {
            k -= 1;
            assert(entries[k as int] == chain@[k as int]@);
            match self.read_delta(&chain[k]) {
                Ok((used, d)) => {
                    proof {
                        let v = delta_of(self@, entries[k as int])->0;
                        if let Some(rest) = deltas_of(self@, entries, k as int) {
                            assert(seen + (seq![v] + rest) =~= seen.push(v) + rest);
                        }
                        seen = seen.push(v);
                    }
                    deltas.push(d);
                    consumed = used;
                },
                Err(e) => {
                    return Err(e);
                },
            }
        }
        assert(seen + seq![] =~= seen);
        Ok(ReadDeltas { deltas, consumed })
    }
}

/// The largest size that the deltas name, or `least`.
fn largest(deltas: &Vec<Delta>, least: usize, Ghost(views): Ghost<Seq<DeltaView>>) -> (r: usize)
    requires
        deltas_are(deltas@, views),
    ensures
        r == largest_size(views, 0, least as int),
{
    let mut big: usize = least;
    let mut i: usize = 0;
    while i < deltas.len()
        invariant
            i <= deltas@.len(),
            deltas_are(deltas@, views),
            largest_size(views, 0, least as int) == largest_size(views, i as int, big as int),
        decreases deltas@.len() - i,
    {
        assert(deltas@[i as int].is(views[i as int]));
        if deltas[i].base_size > big {
            big = deltas[i].base_size;
        }
        if deltas[i].result_size > big {
            big = deltas[i].result_size;
        }
        i += 1;
    }
    big
}

proof fn lemma_largest(deltas: Seq<DeltaView>, i: int, least: int, k: int)
    requires
        0 <= i,
    ensures
        largest_size(deltas, i, least) >= least,
        i <= k < deltas.len() ==> deltas[k].base_size <= largest_size(deltas, i, least)
            && deltas[k].result_size <= largest_size(deltas, i, least),
    decreases deltas.len() - i,
{
    if i < deltas.len() {
        lemma_largest(
            deltas,
            i + 1,
            larger(larger(least, deltas[i].base_size), deltas[i].result_size),
            k,
        );
    }
}

/// The bytes of the deltas after those of `base`.
fn base_and_deltas(base: &[u8], deltas: &Vec<Delta>, Ghost(views): Ghost<Seq<DeltaView>>) -> (r:
    Vec<u8>)
    requires
        deltas_are(deltas@, views),
    ensures
        r@ == base@ + raw_bytes(views, 0),
{
    let mut all = to_vec(base);
    let mut i: usize = 0;
    while i < deltas.len()
        invariant
            i <= deltas@.len(),
            deltas_are(deltas@, views),
            base@ + raw_bytes(views, 0) == all@ + raw_bytes(views, i as int),
        decreases deltas@.len() - i,
    {
        assert(deltas@[i as int].is(views[i as int]));
        let ghost before = all@;
        push_all(&mut all, deltas[i].raw.as_slice());
        assert(before + (views[i as int].raw + raw_bytes(views, i + 1)) =~= all@ + raw_bytes(
            views,
            i + 1,
        ));
        i += 1;
    }
    assert(all@ + raw_bytes(views, i as int) =~= all@);
    all
}

/// Applies the deltas one after the other.
fn apply_chain(
    source: Vec<u8>,
    target: Vec<u8>,
    deltas: &Vec<Delta>,
    Ghost(views): Ghost<Seq<DeltaView>>,
) -> (r: Result<Vec<u8>, GitError>)
    requires
        deltas_are(deltas@, views),
        source@.len() == target@.len(),
        forall|k: int|
            0 <= k < views.len() ==> (#[trigger] views[k]).base_size <= source@.len()
                && views[k].result_size <= source@.len(),
    ensures
        r is Ok <==> built(source@, target@, views, 0) is Some,
        r matches Ok(out) ==> built(source@, target@, views, 0) == Some(out@) && out@.len()
            == source@.len(),
        r matches Err(e) ==> e is Gen,
{
    let ghost goal = built(source@, target@, views, 0);
    let ghost n = source@.len();
    let mut src = source;
    let mut tgt = target;
    let mut i: usize = 0;
    while i < deltas.len()
        invariant
            i <= deltas@.len(),
            deltas_are(deltas@, views),
            src@.len() == n,
            tgt@.len() == n,
            forall|k: int|
                0 <= k < views.len() ==> (#[trigger] views[k]).base_size <= n
                    && views[k].result_size <= n,
            goal == built(source@, target@, views, 0),
            goal == built(src@, tgt@, views, i as int),
        decreases deltas@.len() - i,
    {
        let d: &Delta = &deltas[i];
        assert(deltas@[i as int].is(views[i as int]));
        assert(src@.subrange(0, d.base_size as int) =~= src@.take(d.base_size as int));
        let source_bytes: &[u8] = src.as_slice();
        let raw: &[u8] = d.raw.as_slice();
        match apply(
            &source_bytes[0..d.base_size],
            &mut tgt,
            d.result_size,
            &raw[d.start..raw.len()],
        ) {
            Ok(_) => {},
            Err(e) => {
                return Err(e);
            },
        }
        std::mem::swap(&mut src, &mut tgt);
        i += 1;
    }
    Ok(src)
}

/// Cuts or fills `v` with zeros to `n` bytes.
fn fit(v: &mut Vec<u8>, n: usize)
    ensures
        final(v)@ == fitted(old(v)@, n as int),
{
    let ghost before = v@;
    v.resize(n, 0);
    assert(v@ =~= fitted(before, n as int));
}

/// The part of `s` from `i` to before `j`.
fn part(s: &[u8], i: usize, j: usize) -> (r: Vec<u8>)
    requires
        i <= j <= s@.len(),
    ensures
        r@ == s@.subrange(i as int, j as int),
{
    to_vec(&s[i..j])
}

impl DataFile {
    /// Applies the deltas of a chain to what they build on: the object, and how much of the
    /// pack the first entry of the chain takes.
    fn build(&self, chain: &Vec<DataEntry>, total: u64, base: &Base, Ghost(view): Ghost<BaseView>) -> (r:
        Result<(Vec<u8>, usize), GitError>)
        requires
            chain@.len() > 0,
            base.is(view),
            forall|i: int|
                0 <= i < chain@.len() ==> (#[trigger] chain@[i]).decompressed_size <= total,
        ensures
            r is Ok <==> object_built(self@, entries_view(chain@), total as int, view) is Some,
            r matches Ok(x) ==> object_built(self@, entries_view(chain@), total as int, view)
                == Some(x.0@) && x.1 == entry_length(self@, chain@[0]@),
            r matches Err(e) ==> e is Gen,
    {
        let ghost entries = entries_view(chain@);
        let ghost all_deltas = deltas_of(self@, entries, chain@.len() as int);
        let none: Vec<u8> = Vec::new();
        let base_data: &[u8] = match base {
            Base::Cached { data, .. } => data.as_slice(),
            Base::External { data, .. } => data.as_slice(),
            Base::Whole(_) => none.as_slice(),
        };
        assert(base_data@ =~= base_bytes(view));
        let base_len: usize = base_data.len();
        proof {
            if let Some(views) = all_deltas {
                lemma_largest(views, 0, whole_size(view), 0);
            }
        }
        if total > isize::MAX as u64 {
            return Err(GitError::Gen);
        }
        let least: usize = match base {
            Base::Whole(e) => {
                if e.decompressed_size > isize::MAX as u64 {
                    return Err(GitError::Gen);
                }
                e.decompressed_size as usize
            },
            _ => 0,
        };
        let read = match self.read_deltas(chain) {
            Ok(x) => x,
            Err(e) => {
                return Err(e);
            },
        };
        let ghost views = all_deltas->0;
        let big: usize = largest(&read.deltas, least, Ghost(views));
        if big as u128 * 2 + total as u128 > isize::MAX as u128 || base_len as u128 > big as u128
            * 2 {
            return Err(GitError::Gen);
        }
        let mut work = base_and_deltas(base_data, &read.deltas, Ghost(views));
        fit(&mut work, 2 * big);
        let target = part(work.as_slice(), big, 2 * big);
        let source = match base {
            Base::Whole(e) => {
                let (_, mut whole) = match self.decompress_entry(e) {
                    Ok(x) => x,
                    Err(e) => {
                        return Err(e);
                    },
                };
                let rest = part(work.as_slice(), whole.len(), big);
                push_all(&mut whole, rest.as_slice());
                whole
            },
            _ => part(work.as_slice(), 0, big),
        };
        assert forall|k: int| 0 <= k < views.len() implies (#[trigger] views[k]).base_size <= big
            && views[k].result_size <= big by {
            lemma_largest(views, 0, whole_size(view), k);
        }
        let mut out = match apply_chain(source, target, &read.deltas, Ghost(views)) {
            Ok(out) => out,
            Err(e) => {
                return Err(e);
            },
        };
        let last: usize = read.deltas.len() - 1;
        assert(read.deltas@[last as int].is(views[last as int]));
        let size: usize = read.deltas[last].result_size;
        let ghost full = out@;
        out.truncate(size);
        assert(out@ =~= full.take(size as int));
        Ok((out, read.consumed))
    }

    /// Decodes the object that the delta `last` holds: its bytes replace those of `out`. The
    /// object is offered to the cache.
    pub fn resolve_deltas<C: TraitDecodeEntry>(
        &self,
        last: DataEntry,
        bases: &Bases<'_>,
        out: &mut Vec<u8>,
        cache: &mut C,
    ) -> (r: Result<PackOutcome, GitError>)
        requires
            last.wf(),
            last.header@.is_delta(),
            bases.index.wf(),
            old(cache).wf(),
            chain_ends(self.sources(bases, old(cache).entries()), last@),
        ensures
            final(cache).wf(),
            match decoded(self.sources(bases, old(cache).entries()), last@) {
                Err(err) => r matches Err(e) && chain_error_is(e, err) && keeps_only(
                    old(cache).entries(),
                    final(cache).entries(),
                ),
                Ok(d) => r matches Ok(o) && outcome_is(o, d, last.decompressed_size)
                    && final(out)@ == d.data && keeps_only_and(
                    old(cache).entries(),
                    final(cache).entries(),
                    as_cached(self.pack_id(), last.data_offset, d),
                ) && (d.num_deltas > 0 && old(cache).keeps(as_cached(self.pack_id(), last.data_offset, d))
                    ==> final(cache).entries().len() > 0 && final(cache).entries()[0] == as_cached(
                    self.pack_id(),
                    last.data_offset,
                    d,
                )),
            },
    {
        let ghost src = self.sources(bases, cache.entries());
        let ghost cached = cache.entries();
        let (chain, total, base) = match self.follow_chain(&last, bases, cache) {
            Ok(x) => x,
            Err(e) => {
                return Err(e);
            },
        };
        let ghost view = chain_of(src, last@)->Ok_0.2;
        let ghost kept = cache.entries();
        if chain.len() == 0 {
            match base {
                Base::Cached { kind, compressed_size, data } => {
                    out.clear();
                    push_all(out, data.as_slice());
                    assert(out@ =~= data@);
                    return Ok(PackOutcome::from_object_entry(kind, &last, compressed_size));
                },
                _ => {
                    return Err(GitError::Gen);
                },
            }
        }
        proof {
            let n = choose|n: nat| chain_from(src, last@, seq![], 0, n) is Some;
            lemma_chain_total(src, last@, seq![], 0, n);
            assert forall|i: int| 0 <= i < chain@.len() implies (
            #[trigger] chain@[i]).decompressed_size <= total by {
                assert(entries_view(chain@)[i] == chain@[i]@);
                lemma_sizes_part(entries_view(chain@), i);
            }
        }
        let (data, consumed) = match self.build(&chain, total, &base, Ghost(view)) {
            Ok(x) => x,
            Err(e) => {
                return Err(e);
            },
        };
        let kind = match &base {
            Base::Cached { kind, .. } => *kind,
            Base::External { kind, .. } => *kind,
            Base::Whole(e) => match e.header.as_kind() {
                Some(kind) => kind,
                None => {
                    return Err(GitError::Gen);
                },
            },
        };
        out.clear();
        push_all(out, data.as_slice());
        assert(out@ =~= data@);
        let ghost o = CachedObject {
            pack_id: self.id,
            offset: last.data_offset,
            data: data@,
            kind,
            compressed_size: consumed,
        };
        assert(cache.keeps(o) == old(cache).keeps(o));
        cache.put(self.id, last.data_offset, data.as_slice(), kind, consumed);
        proof {
            lemma_put_keeps(cached, kept, cache.entries(), o);
        }
        Ok(
            PackOutcome {
                kind,
                num_deltas: chain.len() as u32,
                decompressed_size: last.decompressed_size,
                compressed_size: consumed,
                object_size: data.len() as u64,
            },
        )
    }

    /// Decodes the object that the entry `entry` holds: its bytes replace those of `out`. An
    /// object that was built from deltas is offered to the cache.
    pub fn decode_entry<C: TraitDecodeEntry>(
        &self,
        entry: DataEntry,
        out: &mut Vec<u8>,
        bases: &Bases<'_>,
        cache: &mut C,
    ) -> (r: Result<PackOutcome, GitError>)
        requires
            entry.wf(),
            bases.index.wf(),
            old(cache).wf(),
            chain_ends(self.sources(bases, old(cache).entries()), entry@),
        ensures
            final(cache).wf(),
            match decoded(self.sources(bases, old(cache).entries()), entry@) {
                Err(err) => r matches Err(e) && chain_error_is(e, err) && keeps_only(
                    old(cache).entries(),
                    final(cache).entries(),
                ),
                Ok(d) => r matches Ok(o) && outcome_is(o, d, entry.decompressed_size)
                    && final(out)@ == d.data && keeps_only_and(
                    old(cache).entries(),
                    final(cache).entries(),
                    as_cached(self.pack_id(), entry.data_offset, d),
                ) && (d.num_deltas > 0 && old(cache).keeps(as_cached(self.pack_id(), entry.data_offset, d))
                    ==> final(cache).entries().len() > 0 && final(cache).entries()[0] == as_cached(
                    self.pack_id(),
                    entry.data_offset,
                    d,
                )),
            },
    {
        match entry.header.as_kind() {
            Some(kind) => {
                if entry.decompressed_size > isize::MAX as u64 {
                    return Err(GitError::Gen);
                }
                match self.decompress_entry(&entry) {
                    Ok((consumed, data)) => {
                        out.clear();
                        push_all(out, data.as_slice());
                        assert(out@ =~= data@);
                        Ok(PackOutcome::from_object_entry(kind, &entry, consumed))
                    },
                    Err(e) => Err(e),
                }
            },
            None => self.resolve_deltas(entry, bases, out, cache),
        }
    }
}

/// Nothing is kept that was not kept before.
pub open spec fn keeps_only(before: Seq<CachedObject>, after: Seq<CachedObject>) -> bool {
    forall|x: CachedObject| after.contains(x) ==> before.contains(x)
}

/// What is offered to a cache of the object that was decoded from the pack `pack_id` at `offset`.
pub open spec fn as_cached(pack_id: u32, offset: u64, d: Decoded) -> CachedObject {
    CachedObject { pack_id, offset, data: d.data, kind: d.kind, compressed_size: d.compressed_size as usize }
}

/// Nothing is kept that was not kept before, except the decoded object.
pub open spec fn keeps_only_and(before: Seq<CachedObject>, after: Seq<CachedObject>, o: CachedObject) -> bool {
    forall|x: CachedObject| after.contains(x) ==> before.contains(x) || x == o
}

/// The outcome says what the decoded object is.
pub open spec fn outcome_is(o: PackOutcome, d: Decoded, size: u64) -> bool {
    &&& o.kind == d.kind
    &&& o.num_deltas == d.num_deltas as u32
    &&& o.decompressed_size == size
    &&& o.compressed_size == d.compressed_size
    &&& o.object_size == (if d.num_deltas == 0 {
        size
    } else {
        d.data.len() as u64
    })
}

proof fn lemma_put_keeps(
    before: Seq<CachedObject>,
    kept: Seq<CachedObject>,
    after: Seq<CachedObject>,
    o: CachedObject,
)
    requires
        keeps_only(before, kept),
        after == kept || exists|n: int|
            0 <= n <= kept.len() && after == seq![o] + #[trigger] kept.take(n),
    ensures
        forall|x: CachedObject| after.contains(x) ==> before.contains(x) || x == o,
{
    assert forall|x: CachedObject| after.contains(x) implies before.contains(x) || x == o by {
        if after != kept {
            let n = choose|n: int|
                0 <= n <= kept.len() && after == seq![o] + #[trigger] kept.take(n);
            let j = choose|j: int| 0 <= j < after.len() && after[j] == x;
            if j > 0 {
                assert(kept[j - 1] == x);
            }
        }
    }
}

/// The sum of the sizes of the entries.
spec fn sizes(chain: Seq<EntryView>) -> int
    decreases chain.len(),
{
    if chain.len() == 0 {
        0
    } else {
        sizes(chain.drop_last()) + chain.last().size
    }
}

proof fn lemma_sizes_part(chain: Seq<EntryView>, i: int)
    requires
        0 <= i < chain.len(),
    ensures
        chain[i].size <= sizes(chain),
        sizes(chain) >= 0,
    decreases chain.len(),
{
    lemma_sizes_not_negative(chain.drop_last());
    if i < chain.len() - 1 {
        lemma_sizes_part(chain.drop_last(), i);
    }
}

proof fn lemma_sizes_not_negative(chain: Seq<EntryView>)
    ensures
        sizes(chain) >= 0,
    decreases chain.len(),
{
    if chain.len() > 0 {
        lemma_sizes_not_negative(chain.drop_last());
    }
}

proof fn lemma_chain_total(
    src: Sources,
    e: EntryView,
    chain: Seq<EntryView>,
    total: int,
    n: nat,
)
    requires
        total == sizes(chain),
    ensures
        chain_from(src, e, chain, total, n) matches Some(Ok(x)) ==> x.1 == sizes(x.0),
    decreases n,
{
    assert(chain.push(e).drop_last() =~= chain);
    assert(sizes(chain.push(e)) == total + e.size);
    if e.header.is_delta() && n > 0 {
        if let Some(next) = base_in_pack(src, e) {
            lemma_chain_total(src, next, chain.push(e), total + e.size, (n - 1) as nat);
        }
    }
}

/// Each delta is applied to what the one before it gave, and the first one to `base`. Each names the size of what it is
/// applied to.
pub open spec fn stacked(base: Seq<u8>, deltas: Seq<DeltaView>, i: int) -> Option<Seq<u8>>
    decreases deltas.len() - i,
{
    if i >= deltas.len() {
        Some(base)
    } else if base.len() != deltas[i].base_size {
        None
    } else {
        match applied(base, deltas[i].instructions, deltas[i].result_size) {
            None => None,
            Some(out) => stacked(out, deltas, i + 1),
        }
    }
}

proof fn lemma_built(base: Seq<u8>, source: Seq<u8>, target: Seq<u8>, deltas: Seq<DeltaView>, i: int)
    requires
        0 <= i < deltas.len(),
        base.len() <= source.len(),
        source.take(base.len() as int) == base,
        stacked(base, deltas, i) is Some,
        forall|k: int| 0 <= k < deltas.len() ==> 0 <= (#[trigger] deltas[k]).result_size,
    ensures
        built(source, target, deltas, i) matches Some(out) && deltas.last().result_size <= out.len() && out.take(
            deltas.last().result_size,
        ) == stacked(base, deltas, i)->0,
    decreases deltas.len() - i,
{
    let d = deltas[i];
    let out = applied(base, d.instructions, d.result_size)->0;
    assert(out.len() == d.result_size);
    let next = out + from(target, d.result_size);
    assert(next.take(out.len() as int) =~= out);
    if i + 1 < deltas.len() {
        lemma_built(out, next, source, deltas, i + 1);
    } else {
        assert(stacked(out, deltas, i + 1) == Some(out));
        assert(built(next, source, deltas, i + 1) == Some(next));
    }
}

proof fn lemma_largest_size(deltas: Seq<DeltaView>, i: int, least: int)
    requires
        0 <= i,
    ensures
        largest_size(deltas, i, least) >= least,
        forall|k: int|
            i <= k < deltas.len() ==> largest_size(deltas, i, least) >= (#[trigger] deltas[k]).base_size && largest_size(
                deltas,
                i,
                least,
            ) >= deltas[k].result_size,
    decreases deltas.len() - i,
{
    if i < deltas.len() {
        lemma_largest_size(deltas, i + 1, larger(larger(least, deltas[i].base_size), deltas[i].result_size));
    }
}

/// The object that deltas build on a base is what comes of applying them one after the other, where each is applied to an
/// object of the size that it names and the memory for it can be had.
pub proof fn law_deltas_build_one_on_the_other(
    data: Seq<u8>,
    chain: Seq<EntryView>,
    total: int,
    base: BaseView,
    whole: Seq<u8>,
    deltas: Seq<DeltaView>,
)
    requires
        deltas_of(data, chain, chain.len() as int) == Some(deltas),
        deltas.len() > 0,
        match base {
            BaseView::Whole(e) => entry_data(data, e) matches Some((_, bytes)) && bytes == whole && e.size == whole.len(),
            BaseView::Cached(o) => o.data == whole,
            BaseView::External { data, .. } => data == whole,
        },
        stacked(whole, deltas, 0) is Some,
        2 * largest_size(deltas, 0, whole_size(base)) + total <= isize::MAX,
    ensures
        object_built(data, chain, total, base) == stacked(whole, deltas, 0),
{
    let big = largest_size(deltas, 0, whole_size(base));
    let work = fitted(base_bytes(base) + raw_bytes(deltas, 0), 2 * big);
    lemma_largest_size(deltas, 0, whole_size(base));
    lemma_deltas_sized(data, chain, chain.len() as int);
    assert(whole.len() == deltas[0].base_size);
    assert(whole.len() <= big);
    let source = match base {
        BaseView::Whole(e) => whole + work.subrange(whole.len() as int, big),
        _ => work.subrange(0, big),
    };
    let target = work.subrange(big, 2 * big);
    assert(source.take(whole.len() as int) =~= whole) by {
        if !(base is Whole) {
            let both = base_bytes(base) + raw_bytes(deltas, 0);
            assert forall|k: int| 0 <= k < whole.len() implies source[k] == #[trigger] whole[k] by {
                assert(work[k] == both[k]);
            }
        }
    }
    lemma_built(whole, source, target, deltas, 0);
}

proof fn lemma_deltas_sized(data: Seq<u8>, chain: Seq<EntryView>, k: int)
    requires
        deltas_of(data, chain, k) is Some,
        0 <= k <= chain.len(),
    ensures
        deltas_of(data, chain, k)->0.len() == k,
        forall|j: int| 0 <= j < k ==> 0 <= (#[trigger] (deltas_of(data, chain, k)->0)[j]).result_size,
        forall|j: int|
            0 <= j < k ==> delta_of(data, chain[k - 1 - j]) == Some(#[trigger] (deltas_of(data, chain, k)->0)[j]),
    decreases k,
{
    if k > 0 {
        lemma_deltas_sized(data, chain, k - 1);
        let all = deltas_of(data, chain, k)->0;
        let rest = deltas_of(data, chain, k - 1)->0;
        let d = delta_of(data, chain[k - 1])->0;
        assert(all == seq![d] + rest);
        assert(d.result_size >= 0) by {
            let raw = d.raw;
            let n = (header_size(raw)->0).1;
            assert((header_size(from(raw, n))->0).0 >= 0);
        }
        assert forall|j: int| 0 <= j < k implies 0 <= (#[trigger] all[j]).result_size && delta_of(data, chain[k - 1 - j])
            == Some(all[j]) by {
            if j > 0 {
                assert(all[j] == rest[j - 1]);
                assert(delta_of(data, chain[k - 1 - 1 - (j - 1)]) == Some(rest[j - 1]));
            }
        }
    }
}

/// The deltas of a chain are applied from its last entry, which is next to the base, to its first.
pub proof fn law_deltas_are_applied_from_the_base(data: Seq<u8>, chain: Seq<EntryView>, j: int)
    requires
        deltas_of(data, chain, chain.len() as int) is Some,
        0 <= j < chain.len(),
    ensures
        (deltas_of(data, chain, chain.len() as int)->0).len() == chain.len(),
        delta_of(data, chain[chain.len() - 1 - j]) == Some((deltas_of(data, chain, chain.len() as int)->0)[j]),
{
    lemma_deltas_sized(data, chain, chain.len() as int);
    let all = deltas_of(data, chain, chain.len() as int)->0;
    assert(delta_of(data, chain[chain.len() - 1 - j]) == Some(all[j]));
}

/// Each entry of a chain builds on the next one.
spec fn linked_up(src: Sources, chain: Seq<EntryView>, from: int) -> bool {
    forall|k: int|
        from <= k < chain.len() - 1 ==> base_in_pack(src, #[trigger] chain[k]) == Some(chain[k + 1])
}

proof fn lemma_chain_from(src: Sources, e: EntryView, chain: Seq<EntryView>, total: int, n: nat)
    requires
        linked_up(src, chain, 0),
        chain.len() > 0 ==> base_in_pack(src, chain.last()) == Some(e),
    ensures
        chain_from(src, e, chain, total, n) matches Some(Ok((all, _, base))) ==> {
            &&& linked_up(src, all, 0)
            &&& all.len() >= chain.len()
            &&& all.len() > chain.len() ==> all[chain.len() as int] == e
            &&& all.take(chain.len() as int) == chain
            &&& base matches BaseView::Whole(w) ==> !w.header.is_delta() && (if all.len() == 0 {
                w == e
            } else {
                base_in_pack(src, all.last()) == Some(w)
            })
            &&& base matches BaseView::External { kind, data } ==> all.len() > 0 && (all.last().header
                matches HeaderView::RefDelta { base_id } && src.external matches Some(x) && x.id == base_id && x.data
                == data && x.kind == kind)
        },
    decreases n,
{
    assert(chain.take(chain.len() as int) =~= chain);
    if e.header.is_delta() {
        let more = chain.push(e);
        assert(linked_up(src, more, 0)) by {
            assert forall|k: int| 0 <= k < more.len() - 1 implies base_in_pack(src, #[trigger] more[k]) == Some(
                more[k + 1],
            ) by {
                if k < chain.len() - 1 {
                    assert(more[k] == chain[k] && more[k + 1] == chain[k + 1]);
                    assert(base_in_pack(src, chain[k]) == Some(chain[k + 1]));
                }
            }
        }
        assert(more.take(chain.len() as int) =~= chain);
        if let Some(next) = base_in_pack(src, e) {
            if n > 0 {
                lemma_chain_from(src, next, more, total + e.size, (n - 1) as nat);
                if let Some(Ok((all, t, b))) = chain_from(src, next, more, total + e.size, (n - 1) as nat) {
                    assert(all.take(chain.len() as int) =~= all.take(more.len() as int).take(chain.len() as int));
                    assert(all.take(more.len() as int)[chain.len() as int] == more[chain.len() as int]);
                    assert(all[chain.len() as int] == e);
                }
            }
        }
    }
}

/// A chain of deltas begins with the entry that is asked for. Each of its entries builds on the next one, and the last one on
/// an object that the pack holds whole, on one from elsewhere with the id that it names, or on one that was kept.
pub proof fn law_chain_leads_to_its_base(src: Sources, e: EntryView)
    requires
        e.header.is_delta(),
        chain_ends(src, e),
        chain_of(src, e) is Ok,
    ensures
        ({
            let (chain, total, base) = chain_of(src, e)->Ok_0;
            &&& chain.len() > 0 ==> chain[0] == e
            &&& forall|k: int| 0 <= k < chain.len() - 1 ==> base_in_pack(src, #[trigger] chain[k]) == Some(chain[k + 1])
            &&& base matches BaseView::Whole(w) ==> !w.header.is_delta() && chain.len() > 0 && base_in_pack(
                src,
                chain.last(),
            ) == Some(w)
            &&& base matches BaseView::External { kind, data } ==> chain.len() > 0 && (chain.last().header
                matches HeaderView::RefDelta { base_id } && src.external matches Some(x) && x.id == base_id && x.data
                == data && x.kind == kind)
        }),
{
    let n = choose|n: nat| chain_from(src, e, seq![], 0, n) is Some;
    lemma_chain_from(src, e, seq![], 0, n);
}

/// A delta to what begins so many bytes before it builds on the entry there, and one to an id on an entry that the index
/// has for that id.
pub proof fn law_bases_are_found(src: Sources, e: EntryView)
    requires
        0 <= e.pack_offset <= u64::MAX,
    ensures
        base_in_pack(src, e) matches Some(b) ==> {
            &&& e.header matches HeaderView::OfsDelta { base_distance } ==> b.pack_offset == e.pack_offset - base_distance
                && b.pack_offset < e.pack_offset
            &&& e.header matches HeaderView::RefDelta { base_id } ==> exists|i: int|
                found_at(src.index, base_id) == Some(i) && b.pack_offset == #[trigger] offset_at(src.index, i) as u64
        },
        base_in_pack(src, e) matches Some(b) ==> entry_view_at(src.data, b.pack_offset as u64) == Some(b),
{
    if let Some(b) = base_in_pack(src, e) {
        if let HeaderView::RefDelta { base_id } = e.header {
            let i = found_at(src.index, base_id)->0;
            assert(b.pack_offset == offset_at(src.index, i) as u64);
        }
    }
}

/// What an object of a pack is: one that is held whole is what its data gives, and one that deltas build has the kind of
/// what they build on.
pub proof fn law_kind_is_that_of_the_base(src: Sources, e: EntryView)
    ensures
        !e.header.is_delta() && decoded(src, e) is Ok ==> Some(decoded(src, e)->Ok_0.kind) == (match e.header {
            HeaderView::Commit => Some(ObjectKind::Commit),
            HeaderView::Tree => Some(ObjectKind::Tree),
            HeaderView::Blob => Some(ObjectKind::Blob),
            _ => None,
        }) && (entry_data(src.data, e) matches Some((_, bytes)) && decoded(src, e)->Ok_0.data == bytes),
        e.header.is_delta() && decoded(src, e) is Ok ==> (chain_of(src, e) matches Ok((chain, total, base))
            && decoded(src, e)->Ok_0.kind == (match base {
            BaseView::Cached(o) => o.kind,
            BaseView::External { kind, .. } => kind,
            BaseView::Whole(w) => match w.header {
                HeaderView::Commit => ObjectKind::Commit,
                HeaderView::Tree => ObjectKind::Tree,
                _ => w.header.kind()->0,
            },
        })),
{
}

} // verus!
