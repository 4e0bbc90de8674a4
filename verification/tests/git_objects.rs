use helix_ext::git::commit::{
    any_header_field, any_header_field_multi_line, next_inner, signature, CommitRefIter, CommitState, SignedData, Token,
};
use helix_ext::git::error::GitError;
use helix_ext::git::head::{
    hx_head, peeled_head, Commit, GixGitHeadKind, HeadPeel, HeadStep, Object, Reference,
};
use helix_ext::git::object::{decode_loose_header, hx_compute_hash, loose_header, ObjectKind};
use helix_ext::git::odb::loose::{decode_loose, hash_path};
use helix_ext::git::oid::{oid, ObjectId};
use helix_ext::git::pack::cache::{Never, StaticLinkedList, TraitDecodeEntry};
use helix_ext::git::odb::find::{FindStep, IndexLookup, Snapshot};
use helix_ext::git::odb::store::SlotMapIndex;
use helix_ext::git::pack::data::{decode_header, Bases, DataFile, External, PackVersion};
use helix_ext::git::pack::delta::{apply, decode_header_size};
use helix_ext::git::pack::entry::{leb64_encode, parse_leb64, read_header, Header};
use helix_ext::git::pack::index::{read_u32, read_u64, IndexFile};
use helix_ext::git::refs::loose::Target;
use helix_ext::git::refs::name::FullName;
use helix_ext::git::refs::store::RawReference;
use helix_ext::git::tree::{
    next_entry, order_entries, tree_decode_fast_entry, Descent, EntryKind, EntryMode, TreeEntry, TreeRefIter,
};
use helix_ext::git::zlib::{inflate_whole, read, Decompress, Status};
use helix_ext::bytes::Order;
use std::sync::Arc;

const LOOSE_HELLO: &[u8] = &[0x78, 0x9c, 0x4b, 0xca, 0xc9, 0x4f, 0x52, 0x30, 0x63, 0xc8, 0x48, 0xcd, 0xc9, 0xc9, 0xe7, 0x02, 0x00, 0x1d, 0xc5, 0x04, 0x14];
const LOOSE_LONG: &[u8] = &[0x78, 0x9c, 0x4b, 0xca, 0xc9, 0x4f, 0x52, 0x30, 0x33, 0x31, 0x60, 0x30, 0x30, 0x34, 0x32, 0x36, 0x31, 0x35, 0x33, 0xb7, 0xb0, 0x4c, 0x4c, 0x4a, 0x4e, 0x49, 0x4d, 0x1b, 0xe5, 0x8f, 0xf2, 0xe9, 0xc9, 0x07, 0x00, 0x8c, 0x7c, 0xb1, 0xaa];
const HELLO_WORLD: &[u8] = &[0x78, 0x9c, 0xcb, 0x48, 0xcd, 0xc9, 0xc9, 0x57, 0x28, 0xcf, 0x2f, 0xca, 0x49, 0x01, 0x00, 0x1a, 0x0b, 0x04, 0x5d];
const DELTA: &[u8] = &[0x0b, 0x11, 0x91, 0x00, 0x05, 0x06, 0x20, 0x74, 0x68, 0x65, 0x72, 0x65, 0x91, 0x05, 0x06];
const PACK: &[u8] = &[0x50, 0x41, 0x43, 0x4b, 0x00, 0x00, 0x00, 0x02, 0x00, 0x00, 0x00, 0x03, 0x3b, 0x78, 0x9c, 0xcb, 0x48, 0xcd, 0xc9, 0xc9, 0x57, 0x28, 0xcf, 0x2f, 0xca, 0x49, 0x01, 0x00, 0x1a, 0x0b, 0x04, 0x5d, 0x6f, 0x14, 0x78, 0x9c, 0xe3, 0x16, 0x9c, 0xc8, 0xc0, 0xca, 0xa6, 0x50, 0x92, 0x91, 0x5a, 0x94, 0x3a, 0x91, 0x95, 0x0d, 0x00, 0x18, 0xf9, 0x03, 0x8d, 0x7f, 0x00, 0x01, 0x02, 0x03, 0x04, 0x05, 0x06, 0x07, 0x08, 0x09, 0x0a, 0x0b, 0x0c, 0x0d, 0x0e, 0x0f, 0x10, 0x11, 0x12, 0x13, 0x78, 0x9c, 0xe3, 0x16, 0x9c, 0xc8, 0xc0, 0xca, 0xa6, 0x50, 0x92, 0x91, 0x5a, 0x94, 0x3a, 0x91, 0x95, 0x0d, 0x00, 0x18, 0xf9, 0x03, 0x8d, 0xdd, 0x44, 0x2d, 0x13, 0x90, 0x04, 0xfc, 0x34, 0x88, 0xf1, 0x57, 0xc5, 0xad, 0x87, 0xe3, 0x74, 0x93, 0x95, 0x58, 0x53];
const BLOB_OFFSET: u64 = 12;
const OFS_DELTA_OFFSET: u64 = 32;
const REF_DELTA_OFFSET: u64 = 57;
const BLOB_ID: &[u8] = &[0x95, 0xd0, 0x9f, 0x2b, 0x10, 0x15, 0x93, 0x47, 0xee, 0xce, 0x71, 0x39, 0x9a, 0x7e, 0x2e, 0x90, 0x7e, 0xa3, 0xdf, 0x4f];
const CHANGED_ID: &[u8] = &[0x16, 0xb1, 0x38, 0xdf, 0xa5, 0x92, 0x87, 0xc6, 0x91, 0x7b, 0xe1, 0x89, 0x57, 0x5a, 0x99, 0x69, 0x72, 0x56, 0x09, 0x74];
const BASE_ID: &[u8] = &[0x00, 0x01, 0x02, 0x03, 0x04, 0x05, 0x06, 0x07, 0x08, 0x09, 0x0a, 0x0b, 0x0c, 0x0d, 0x0e, 0x0f, 0x10, 0x11, 0x12, 0x13];

fn id(bytes: &[u8]) -> ObjectId {
    ObjectId::from_20_bytes(bytes)
}

fn index_of(entries: &[(&[u8], u32)], large: &[u64]) -> Vec<u8> {
    let mut sorted: Vec<(&[u8], u32)> = entries.to_vec();
    sorted.sort();
    let mut out = vec![0xff, b't', b'O', b'c', 0, 0, 0, 2];
    for first in 0..256u32 {
        let n = sorted.iter().filter(|e| u32::from(e.0[0]) <= first).count() as u32;
        out.extend_from_slice(&n.to_be_bytes());
    }
    for e in &sorted {
        out.extend_from_slice(e.0);
    }
    for _ in &sorted {
        out.extend_from_slice(&[0; 4]);
    }
    for e in &sorted {
        out.extend_from_slice(&e.1.to_be_bytes());
    }
    for l in large {
        out.extend_from_slice(&l.to_be_bytes());
    }
    out.extend_from_slice(&[0; 40]);
    out
}

fn index() -> IndexFile {
    let entries = [(BLOB_ID, BLOB_OFFSET as u32), (CHANGED_ID, OFS_DELTA_OFFSET as u32)];
    IndexFile::from_data(index_of(&entries, &[])).unwrap()
}

#[test]
fn ids_in_hexadecimal() {
    let text = b"ce013625030ba8dba906f756967f9e9ca394464a";
    let i = ObjectId::hx_from_hex(text).unwrap();
    assert_eq!(i.as_slice()[0], 0xce);
    assert_eq!(i.as_oid().to_hex().as_bytes(), text);
    assert_eq!(i.as_oid().hex_to_vec(), text.to_vec());
    assert_eq!(i.as_oid().helix_to_hex_with_len(), "ce013625");
    let mut out = b"x".to_vec();
    i.as_oid().write_hex_to(&mut out);
    assert_eq!(out[1..], text[..]);
    let upper = ObjectId::hx_from_hex(b"CE013625030BA8DBA906F756967F9E9CA394464A").unwrap();
    assert!(upper.same(&i));
    assert!(matches!(ObjectId::hx_from_hex(b"ce01"), Err(GitError::Gen)));
    assert!(ObjectId::hx_from_hex(b"ze013625030ba8dba906f756967f9e9ca394464a").is_err());
    assert!(oid::try_from_bytes(i.as_slice()).unwrap().to_owned().same(&i));
    assert!(oid::try_from_bytes(b"short").is_err());
    assert_eq!(i.as_oid().first_byte(), 0xce);
    assert!(ObjectId::from_bytes_or_panic(i.as_slice()).same(&i));
}

#[test]
fn hashes_of_objects() {
    let h = hx_compute_hash(ObjectKind::Blob, b"hello\n").unwrap();
    assert_eq!(h.as_oid().to_hex(), "ce013625030ba8dba906f756967f9e9ca394464a");
    let empty = hx_compute_hash(ObjectKind::Tree, b"").unwrap();
    assert!(empty.same(&ObjectId::empty_tree()));
}

#[test]
fn kinds_and_their_names() {
    for kind in [ObjectKind::Tree, ObjectKind::Blob, ObjectKind::Commit] {
        assert_eq!(ObjectKind::from_bytes(kind.as_bytes()).unwrap(), kind);
    }
    assert!(matches!(ObjectKind::from_bytes(b"tag"), Err(GitError::Gen)));
    assert!(ObjectKind::Tree.is_tree());
}

#[test]
fn loose_headers() {
    assert_eq!(loose_header(ObjectKind::Blob, 11), b"blob 11\0".to_vec());
    let mut data = loose_header(ObjectKind::Commit, 3);
    data.extend_from_slice(b"abc");
    assert_eq!(decode_loose_header(&data).unwrap(), (ObjectKind::Commit, 3, 9));
    assert!(decode_loose_header(b"blob").is_err());
    assert!(decode_loose_header(b"blob x\0").is_err());
    assert!(decode_loose_header(b"thing 1\0").is_err());
}

#[test]
fn loose_objects() {
    assert_eq!(decode_loose(LOOSE_HELLO).unwrap(), (ObjectKind::Blob, b"hello\n".to_vec()));
    let (kind, data) = decode_loose(LOOSE_LONG).unwrap();
    assert_eq!(kind, ObjectKind::Blob);
    assert_eq!(data, b"0123456789abcdef".repeat(40));
    assert!(matches!(decode_loose(b"no stream"), Err(GitError::Gen)));
    let path = hash_path(id(BLOB_ID).as_oid(), b"/o");
    let hex = id(BLOB_ID).as_oid().to_hex();
    assert_eq!(path, format!("/o/{}/{}", &hex[..2], &hex[2..]).into_bytes());
}

#[test]
fn streams_are_inflated() {
    assert_eq!(inflate_whole(HELLO_WORLD, 11).unwrap(), (HELLO_WORLD.len(), b"hello world".to_vec()));
    assert!(matches!(inflate_whole(HELLO_WORLD, 10), Err(GitError::Gen)));
    assert!(inflate_whole(HELLO_WORLD, 12).is_err());
    assert!(inflate_whole(b"garbage", 3).is_err());
    let mut z = Decompress::new();
    let mut out = [0u8; 5];
    let (status, used, given) = z.decompress(HELLO_WORLD, &mut out, false).unwrap();
    assert_ne!(status, Status::StreamEnd);
    assert_eq!(given, 5);
    assert_eq!(&out, b"hello");
    let mut rest = Vec::new();
    assert_eq!(read(&HELLO_WORLD[used..], &mut z, &mut rest, 100).unwrap(), 6);
    assert_eq!(rest, b" world".to_vec());
}

#[test]
fn numbers_in_files() {
    assert_eq!(read_u32(&[0, 0, 1, 2, 3], 1), 0x00010203);
    assert_eq!(read_u64(&[0, 0, 0, 0, 0, 0, 1, 2], 0), 0x0102);
}

#[test]
fn deltas_are_applied() {
    assert_eq!(decode_header_size(&[0x91, 0x01, 7]).unwrap(), (0x91, 2));
    assert!(matches!(decode_header_size(&[0x80]), Err(GitError::Gen)));
    assert!(decode_header_size(&[]).is_err());
    let (base_len, a) = decode_header_size(DELTA).unwrap();
    let (len, b) = decode_header_size(&DELTA[a..]).unwrap();
    assert_eq!((base_len, len), (11, 17));
    let mut out = vec![0; 17];
    apply(b"hello world", &mut out, 17, &DELTA[a + b..]).unwrap();
    assert_eq!(out, b"hello there world".to_vec());
    let mut out = vec![0; 17];
    assert!(matches!(apply(b"hello", &mut out, 17, &DELTA[a + b..]), Err(GitError::Gen)));
    let mut out = vec![0; 16];
    apply(b"hello world", &mut out, 16, &DELTA[a + b..]).unwrap();
    assert_eq!(out, b"hello there worl".to_vec());
    let mut out = vec![0; 17];
    assert!(apply(b"hello world", &mut out, 17, &[0]).is_err());
}

#[test]
fn headers_of_packed_objects() {
    let headers = [
        (Header::Commit, 0u64),
        (Header::Tree, 15),
        (Header::Blob, 16),
        (Header::OfsDelta { base_distance: 1 }, 1 << 20),
        (Header::OfsDelta { base_distance: 300 }, u64::MAX),
        (Header::RefDelta { base_id: ObjectId::empty_tree() }, 5),
    ];
    for (h, size) in headers {
        let mut out = Vec::new();
        assert_eq!(h.write_to(size, &mut out), out.len());
        assert_eq!(h.size(size), out.len());
        let n = out.len();
        out.extend_from_slice(b"rest");
        let (back, read_size, used) = read_header(&out).unwrap();
        assert_eq!(read_size, size);
        assert_eq!(used, n);
        assert_eq!(back.as_type_id(), h.as_type_id());
        assert_eq!(back.is_delta(), h.is_delta());
        match (back, h) {
            (Header::OfsDelta { base_distance: a }, Header::OfsDelta { base_distance: b }) => assert_eq!(a, b),
            (Header::RefDelta { base_id: a }, Header::RefDelta { base_id: b }) => assert!(a.same(&b)),
            (a, b) => assert_eq!(a.as_kind(), b.as_kind()),
        }
    }
    let mut out = Vec::new();
    Header::Blob.write_to(16, &mut out);
    assert_eq!(out, vec![0xb0, 0x01]);
    let mut out = Vec::new();
    Header::OfsDelta { base_distance: 300 }.write_to(5, &mut out);
    assert_eq!(out, vec![0x65, 0x81, 0x2c]);
    assert!(matches!(read_header(&[0x50]), Err(GitError::Gen)));
    assert!(read_header(&[0xb0]).is_err());
    assert!(read_header(&[]).is_err());
    assert_eq!(Header::verified_base_pack_offset(100, 30), Some(70));
    assert_eq!(Header::verified_base_pack_offset(100, 0), None);
    assert_eq!(Header::verified_base_pack_offset(100, 101), None);
}

#[test]
fn headers_of_packs() {
    let (version, count) = decode_header(PACK).unwrap();
    assert!(matches!(version, PackVersion::V2));
    assert_eq!(count, 3);
    assert!(matches!(decode_header(b"PACK\0\0\0\x04\0\0\0\x01"), Err(GitError::Gen)));
    assert!(decode_header(b"KCAP\0\0\0\x02\0\0\0\x01").is_err());
    assert!(DataFile::from_data(b"PACK".to_vec(), b"/p").is_err());
}

#[test]
fn indices_find_objects() {
    let ix = index();
    assert_eq!(ix.num_objects(), 2);
    assert_eq!(ix.pack_offset_by_id(id(BLOB_ID).as_oid()), Some(BLOB_OFFSET));
    assert_eq!(ix.pack_offset_by_id(id(CHANGED_ID).as_oid()), Some(OFS_DELTA_OFFSET));
    assert_eq!(ix.lookup(id(BASE_ID).as_oid()), None);
    let k = ix.lookup(id(BLOB_ID).as_oid()).unwrap();
    assert!(ix.oid_at_index(k).to_owned().same(&id(BLOB_ID)));
    assert_eq!(ix.pack_offset_at_index(k), BLOB_OFFSET);
    assert!(matches!(IndexFile::from_data(vec![0; 10]), Err(GitError::Gen)));
    let entries = [(BLOB_ID, 0x8000_0000u32)];
    let large = IndexFile::from_data(index_of(&entries, &[0x1_0000_0000])).unwrap();
    assert_eq!(large.pack_offset_by_id(id(BLOB_ID).as_oid()), Some(0x1_0000_0000));
}

#[test]
fn objects_of_packs() {
    let pack = DataFile::from_data(PACK.to_vec(), b"/p.pack").unwrap();
    let ix = index();
    let bases = Bases { index: &ix, external: None };
    let mut cache = StaticLinkedList::new(1 << 20);
    for _ in 0..2 {
        let mut out = Vec::new();
        let e = pack.entry(OFS_DELTA_OFFSET).unwrap();
        assert_eq!(e.pack_offset(), OFS_DELTA_OFFSET);
        let o = pack.decode_entry(e, &mut out, &bases, &mut cache).unwrap();
        assert_eq!(o.kind, ObjectKind::Blob);
        assert_eq!(out, b"hello there world".to_vec());
        let mut out = Vec::new();
        let e = pack.entry(BLOB_OFFSET).unwrap();
        let o = pack.decode_entry(e, &mut out, &bases, &mut cache).unwrap();
        assert_eq!((o.kind, o.object_size), (ObjectKind::Blob, 11));
        assert_eq!(out, b"hello world".to_vec());
    }
}

#[test]
fn bases_in_other_places() {
    let pack = DataFile::from_data(PACK.to_vec(), b"/p.pack").unwrap();
    let ix = index();
    let mut out = Vec::new();
    let e = pack.entry(REF_DELTA_OFFSET).unwrap();
    let bases = Bases { index: &ix, external: None };
    match pack.decode_entry(e, &mut out, &bases, &mut Never) {
        Err(GitError::DeltaBaseUnresolved(base)) => assert!(base.same(&id(BASE_ID))),
        _ => panic!("the base is not in the pack"),
    }
    let external = External { id: id(BASE_ID), kind: ObjectKind::Blob, data: b"hello world" };
    let bases = Bases { index: &ix, external: Some(external) };
    let mut out = Vec::new();
    let o = pack.decode_entry(e, &mut out, &bases, &mut Never).unwrap();
    assert_eq!(o.kind, ObjectKind::Blob);
    assert_eq!(out, b"hello there world".to_vec());
}

#[test]
fn packs_are_told_apart_by_their_paths() {
    let pack = DataFile::from_data(PACK.to_vec(), b"/p.pack").unwrap();
    let ix = index();
    let mut cache = StaticLinkedList::new(1 << 20);
    let e = pack.entry(OFS_DELTA_OFFSET).unwrap();
    let mut out = Vec::new();
    pack.decode_entry(e, &mut out, &Bases { index: &ix, external: None }, &mut cache).unwrap();
    let mut kept = Vec::new();
    assert!(cache.get(crc32fast::hash(b"/p.pack"), e.data_offset, &mut kept).is_some());
    assert_eq!(kept, b"hello there world".to_vec());
    assert!(cache.get(crc32fast::hash(b"/q.pack"), e.data_offset, &mut kept).is_none());
}

#[test]
fn chains_of_deltas_end() {
    let pack = DataFile::from_data(PACK.to_vec(), b"/p.pack").unwrap();
    let ix = index();
    let e = pack.entry(OFS_DELTA_OFFSET).unwrap();
    assert!(pack.chain_is_finite(&e, &Bases { index: &ix, external: None }));
    let mut snapshot = Snapshot {
        indices: vec![IndexLookup { index: Arc::new(ix), data: None, id: 0 }],
        loose_dbs: Vec::new(),
        marker: SlotMapIndex::new().marker(),
    };
    let changed = id(CHANGED_ID);
    let needs = snapshot.try_find_cached(changed.as_oid(), None, &mut Never);
    assert!(matches!(needs, FindStep::NeedsPack(p) if p.index == 0));
    snapshot.pack_loaded(0, Arc::new(pack.with_id(3)));
    let given = snapshot.try_find_cached(changed.as_oid(), None, &mut Never);
    assert!(matches!(given, FindStep::Found(ObjectKind::Blob, data) if data == b"hello there world"));
    let missing = id(BASE_ID);
    let nothing = snapshot.try_find_cached(missing.as_oid(), None, &mut Never);
    assert!(matches!(nothing, FindStep::NotPacked));
}

#[test]
fn delta_of_itself_is_an_error() {
    let pack = DataFile::from_data(PACK.to_vec(), b"/p.pack").unwrap();
    let entries = [(BASE_ID, REF_DELTA_OFFSET as u32)];
    let ix = IndexFile::from_data(index_of(&entries, &[])).unwrap();
    let e = pack.entry(REF_DELTA_OFFSET).unwrap();
    assert!(!pack.chain_is_finite(&e, &Bases { index: &ix, external: None }));
    let mut snapshot = Snapshot {
        indices: vec![IndexLookup { index: Arc::new(ix), data: Some(Arc::new(pack)), id: 0 }],
        loose_dbs: Vec::new(),
        marker: SlotMapIndex::new().marker(),
    };
    let base = id(BASE_ID);
    let step = snapshot.try_find_cached(base.as_oid(), None, &mut Never);
    assert!(matches!(step, FindStep::Failed(GitError::Gen)));
}

#[test]
fn cache_gives_what_was_put() {
    let mut c = StaticLinkedList::new(16);
    c.put(1, 10, b"abcd", ObjectKind::Blob, 3);
    c.put(1, 20, b"efgh", ObjectKind::Tree, 4);
    let mut out = b"old".to_vec();
    assert_eq!(c.get(1, 10, &mut out), Some((ObjectKind::Blob, 3)));
    assert_eq!(out, b"abcd".to_vec());
    assert_eq!(c.get(2, 10, &mut out), None);
    assert_eq!(out, b"abcd".to_vec());
    c.put(1, 30, &[7; 17], ObjectKind::Blob, 1);
    assert_eq!(c.get(1, 30, &mut out), None);
    let mut n = Never;
    n.put(1, 10, b"abcd", ObjectKind::Blob, 3);
    assert_eq!(n.get(1, 10, &mut out), None);
}

fn tree_data() -> Vec<u8> {
    let mut t = b"100644 a.txt\0".to_vec();
    t.extend_from_slice(BLOB_ID);
    t.extend_from_slice(b"40000 sub\0");
    t.extend_from_slice(CHANGED_ID);
    t
}

#[test]
fn modes_of_entries() {
    for kind in [EntryKind::Tree, EntryKind::Blob, EntryKind::BlobExecutable, EntryKind::Link, EntryKind::Commit] {
        let mode = kind.to_mode();
        assert_eq!(mode.kind(), kind);
        let mut text = mode.as_bytes();
        text.extend_from_slice(b" name");
        let (back, next) = EntryMode::extract_from_bytes(&text).unwrap();
        assert_eq!(back.value(), mode.value());
        assert_eq!(&text[next..], b"name");
    }
    assert_eq!(EntryKind::Tree.to_mode().value(), 0o040000);
    assert_eq!(EntryKind::Tree.to_mode().as_bytes(), b"40000".to_vec());
    assert_eq!(EntryKind::BlobExecutable.to_mode().as_bytes(), b"100755".to_vec());
    assert!(EntryKind::Tree.to_mode().is_tree());
    assert_eq!(EntryMode { internal: 0o100664 }.kind(), EntryKind::Blob);
    assert_eq!(EntryMode { internal: 0o100700 }.kind(), EntryKind::BlobExecutable);
    assert_eq!(EntryMode::hx_try_from(0o100644).unwrap().value(), 0o100644);
    assert!(matches!(EntryMode::hx_try_from(7), Err(GitError::Gen)));
    assert!(EntryMode::extract_from_bytes(b"9 x").is_none());
}

#[test]
fn entries_of_trees() {
    let data = tree_data();
    let mut it = TreeRefIter::from_bytes(&data);
    let first = it.next().unwrap().unwrap();
    assert_eq!(first.filename, b"a.txt");
    assert!(first.oid.to_owned().same(&id(BLOB_ID)));
    let second = it.next().unwrap().unwrap();
    assert_eq!(second.filename, b"sub");
    assert!(second.mode.is_tree());
    assert!(it.next().is_none());
    let mut broken = TreeRefIter::from_bytes(b"100644 a");
    assert!(matches!(broken.next(), Some(Err(GitError::Gen))));
    assert!(broken.next().is_none());
    let (e, used) = tree_decode_fast_entry(&data).unwrap();
    assert_eq!(e.filename, b"a.txt");
    assert_eq!(used, 33);
}

#[test]
fn descending_into_trees() {
    let data = tree_data();
    let path = |names: &[&str]| -> Vec<Vec<u8>> { names.iter().map(|n| n.as_bytes().to_vec()).collect() };
    match next_entry(&path(&["a.txt"]), 0, ObjectKind::Tree, &data) {
        Descent::Found(e) => {
            assert_eq!(e.filename, b"a.txt".to_vec());
            assert!(e.oid.same(&id(BLOB_ID)));
        },
        _ => panic!("a.txt is there"),
    }
    assert!(matches!(next_entry(&path(&["sub", "x"]), 0, ObjectKind::Tree, &data), Descent::Into(i)
        if i.same(&id(CHANGED_ID))));
    assert!(matches!(next_entry(&path(&["b"]), 0, ObjectKind::Tree, &data), Descent::Missing));
    assert!(matches!(next_entry(&path(&["a.txt"]), 0, ObjectKind::Blob, &data), Descent::Missing));
    assert!(matches!(next_entry(&path(&[]), 0, ObjectKind::Tree, &data), Descent::Missing));
}

#[test]
fn order_of_entries() {
    let entry = |mode: EntryKind, name: &[u8]| TreeEntry {
        mode: mode.to_mode(),
        filename: name.to_vec(),
        oid: ObjectId::empty_tree(),
    };
    let dir = entry(EntryKind::Tree, b"a");
    let file = entry(EntryKind::Blob, b"a.c");
    assert!(matches!(order_entries(&dir, &file), Order::Greater));
    assert!(matches!(order_entries(&file, &dir), Order::Less));
    assert!(matches!(order_entries(&file, &file), Order::Equal));
    let plain = entry(EntryKind::Blob, b"a");
    assert!(matches!(order_entries(&plain, &file), Order::Less));
}

fn commit_data() -> Vec<u8> {
    b"tree 4b825dc642cb6eb9a060e54bf8d69288fbee4904\nparent ce013625030ba8dba906f756967f9e9ca394464a\n\
author A U Thor <a@example.com> 1112911993 -0700\ncommitter C <c@example.com> 1112911993 +0000\n\
encoding ISO-8859-1\ngpgsig -----BEGIN\n line\n -----END\n\nmessage\n"
        .to_vec()
}

#[test]
fn parts_of_commits() {
    let data = commit_data();
    let mut it = CommitRefIter::hx_from_bytes(&data);
    assert!(matches!(it.next(), Some(Ok(Token::Tree(i))) if i.same(&ObjectId::empty_tree())));
    assert!(matches!(it.next(), Some(Ok(Token::Parent(i))) if i.as_slice()[0] == 0xce));
    assert!(matches!(it.next(), Some(Ok(Token::Author))));
    assert!(matches!(it.next(), Some(Ok(Token::Committer))));
    assert!(matches!(it.next(), Some(Ok(Token::Encoding))));
    assert!(matches!(it.next(), Some(Ok(Token::ExtraHeader))));
    assert!(matches!(it.next(), Some(Ok(Token::Message))));
    assert!(CommitRefIter::hx_from_bytes(&data).tree_id().unwrap().same(&ObjectId::empty_tree()));
    assert!(matches!(CommitRefIter::hx_from_bytes(b"").tree_id(), Err(GitError::Gen)));
    let mut broken = CommitRefIter::hx_from_bytes(b"tree 12\n");
    assert!(matches!(broken.next(), Some(Err(GitError::Gen))));
    assert!(broken.next().is_none());
    assert!(next_inner(b"tree x", CommitState::Tree).is_none());
    assert!(Token::Author.try_into_id().is_none());
}

#[test]
fn headers_of_commits() {
    let (name, value, used) = any_header_field(b"encoding UTF-8\nrest").unwrap();
    assert_eq!((name, value, used), (&b"encoding"[..], &b"UTF-8"[..], 15));
    assert!(any_header_field(b"nothing").is_none());
    let (name, value, used) = any_header_field_multi_line(b"gpgsig a\n b\n c\nrest").unwrap();
    assert_eq!(name, b"gpgsig");
    assert_eq!(used, 15);
    assert_eq!(value, b"a\nb\nc\n".to_vec());
    let s = signature(b"A U Thor <a@example.com> 1112911993 -0700").unwrap();
    assert_eq!(s.name, b"A U Thor");
    assert_eq!(s.email, b"a@example.com");
    assert_eq!(s.time, b"1112911993 -0700");
    assert!(matches!(signature(b"nobody"), Err(GitError::Gen)));
    let signed = SignedData { data: b"abcdef", start: 2, end: 4 };
    assert_eq!(signed.to_bstring(), b"abef".to_vec());
}

#[test]
fn objects_by_their_kind() {
    let o = Object::built_in(ObjectId::empty_tree()).unwrap();
    assert_eq!(o.kind, ObjectKind::Tree);
    assert!(o.data.is_empty());
    assert!(Object::built_in(id(BLOB_ID)).is_none());
    assert!(o.try_into_tree().is_ok());
    let o = Object { id: id(BLOB_ID), kind: ObjectKind::Blob, data: b"x".to_vec() };
    assert!(matches!(o.try_into_tree(), Err(GitError::Gen)));
    let o = Object { id: id(BLOB_ID), kind: ObjectKind::Blob, data: b"x".to_vec() };
    assert_eq!(o.try_into_blob().unwrap().data, b"x".to_vec());
    let o = Object { id: id(BLOB_ID), kind: ObjectKind::Commit, data: commit_data() };
    let c: Commit = o.try_into_commit().unwrap();
    assert!(c.id.same(&id(BLOB_ID)));
    assert!(c.hx_tree_id().unwrap().same(&ObjectId::empty_tree()));
}

fn reference(name: &[u8], target: Target) -> RawReference {
    RawReference { name: FullName(name.to_vec()), target, peeled: None }
}

#[test]
fn what_the_repository_is_at() {
    assert!(matches!(hx_head(None), Err(GitError::NotFound)));
    let branch = b"refs/heads/main";
    let head = reference(b"HEAD", Target::Symbolic(FullName(branch.to_vec())));
    let name = match hx_head(Some(head)) {
        Ok(HeadStep::Find(name)) => name,
        _ => panic!("a branch"),
    };
    assert_eq!(name.0, branch.to_vec());
    let unborn = GixGitHeadKind::on_branch(FullName(branch.to_vec()), None);
    assert!(matches!(unborn.hx_try_peel_to_id(), HeadPeel::Nothing));
    let found = reference(branch, Target::Object(id(BLOB_ID)));
    let on = GixGitHeadKind::on_branch(name, Some(found));
    let r: Reference = on.try_into_referent().unwrap();
    assert_eq!(r.name().0, branch);
    assert_eq!(r.name().shorten(), "main");
    let detached = match hx_head(Some(reference(b"HEAD", Target::Object(id(BLOB_ID))))) {
        Ok(HeadStep::Known(k)) => k,
        _ => panic!("an object"),
    };
    assert!(matches!(detached.hx_try_peel_to_id(), HeadPeel::IfCommit(i) if i.same(&id(BLOB_ID))));
    assert!(matches!(peeled_head(None, false, None), Err(GitError::Unborn)));
    assert!(peeled_head(Some(id(BLOB_ID)), true, Some(ObjectKind::Commit)).is_ok());
    assert!(matches!(peeled_head(Some(id(BLOB_ID)), true, Some(ObjectKind::Blob)), Err(GitError::Unborn)));
    assert!(matches!(peeled_head(Some(id(BLOB_ID)), true, None), Err(GitError::Gen)));
    assert!(peeled_head(Some(id(BLOB_ID)), false, None).is_ok());
}

#[test]
fn distances_are_read_back() {
    assert_eq!(leb64_encode(127), vec![0x7f]);
    assert_eq!(leb64_encode(128), vec![0x80, 0x00]);
    for n in [0, 1, 127, 128, 16511, 16512, u64::from(u32::MAX), u64::MAX] {
        let mut data = leb64_encode(n);
        let len = data.len();
        data.extend_from_slice(b"\xffrest");
        assert!(matches!(parse_leb64(&data), Ok(x) if x == (n, len)));
    }
    assert!(parse_leb64(b"").is_err());
    assert!(parse_leb64(b"\x80").is_err());
}
