//! Objects in files of their own.
use crate::bytes::{from, push_all};
use crate::git::error::GitError;
use crate::git::object::{decode_loose_header, loose_header_read, ObjectKind};
use crate::git::oid::{hex, oid};
use crate::git::zlib::{inflated_once, read, read_on, Decompress, Status, Step};
use crate::path::{join, joined};
use vstd::prelude::*;

verus! {

/// How much is decompressed to see the header of an object.
pub const HEADER_MAX_SIZE: usize = 64;

/// The file of the object `id` below `root`.
pub open spec fn loose_path(id: Seq<u8>, root: Seq<u8>) -> Seq<u8> {
    joined(joined(root, hex(id).subrange(0, 2)), hex(id).subrange(2, 40))
}

/// The file of the object `id` below `root`.
pub fn hash_path(id: oid<'_>, root: &[u8]) -> (r: Vec<u8>)
    requires
        id.wf(),
    ensures
        r@ == loose_path(id@, root@),
{
    let digits = id.hex_to_vec();
    let dir = join(root, &digits.as_slice()[0..2]);
    join(dir.as_slice(), &digits.as_slice()[2..40])
}

/// The step that decompresses the header.
pub open spec fn first_step(data: Seq<u8>) -> Step {
    Step { input: data, room: HEADER_MAX_SIZE as nat, last: false }
}

/// The kind and the contents of the object in the file with the contents `data`.
pub open spec fn loose_object(data: Seq<u8>) -> Option<(ObjectKind, Seq<u8>)> {
    match inflated_once(data, HEADER_MAX_SIZE as nat) {
        None => None,
        Some((status, used, head)) => if data.len() == 0 || status == Status::BufError {
            None
        } else {
            match loose_header_read(head) {
                None => None,
                Some((kind, size, header_size)) => {
                    let body = from(head, header_size as int);
                    if size > usize::MAX || body.len() > size {
                        None
                    } else if status == Status::StreamEnd {
                        if body.len() == size {
                            Some((kind, body))
                        } else {
                            None
                        }
                    } else {
                        match read_on(
                            seq![first_step(data)],
                            from(data, used as int),
                            (size - body.len()) as nat,
                        ) {
                            Some(rest) => if body.len() + rest.len() == size {
                                Some((kind, body + rest))
                            } else {
                                None
                            },
                            None => None,
                        }
                    }
                },
            }
        },
    }
}

/// The header ends within what was decompressed.
proof fn lemma_header_size(head: Seq<u8>)
    requires
        head.len() <= 64,
    ensures
        loose_header_read(head) matches Some((_, _, n)) ==> 0 < n <= head.len(),
{
    crate::bytes::lemma_pos_of(head, 0, 0);
    crate::bytes::lemma_pos_of(head, 0x20, 0);
}

/// The object in a file with the contents `data`.
pub fn decode_loose(data: &[u8]) -> (r: Result<(ObjectKind, Vec<u8>), GitError>)
    ensures
        r is Ok <==> loose_object(data@) is Some,
        r matches Ok(x) ==> loose_object(data@) == Some((x.0, x.1@)),
        r matches Err(e) ==> e is Gen,
{
    if data.len() == 0 {
        return Err(GitError::Gen);
    }
    let mut header: Vec<u8> = Vec::new();
    header.resize(HEADER_MAX_SIZE, 0);
    let mut inflate = Decompress::new();
    let (status, used, given) = match inflate.decompress(data, header.as_mut_slice(), false) {
        Err(e) => {
            return Err(e);
        },
        Ok(x) => x,
    };
    if status == Status::BufError {
        return Err(GitError::Gen);
    }
    header.truncate(given);
    let ghost head = header@;
    assert(inflated_once(data@, 64) == Some((status, used as nat, head)));
    assert(inflate@ =~= seq![first_step(data@)]);
    proof {
        lemma_header_size(head);
    }
    let (kind, size, header_size) = match decode_loose_header(header.as_slice()) {
        Err(e) => {
            return Err(e);
        },
        Ok(x) => x,
    };
    if size > usize::MAX as u64 {
        return Err(GitError::Gen);
    }
    let have = given - header_size;
    if have as u64 > size {
        return Err(GitError::Gen);
    }
    let mut out: Vec<u8> = Vec::new();
    push_all(&mut out, &header.as_slice()[header_size..given]);
    assert(out@ =~= from(head, header_size as int));
    if status == Status::StreamEnd {
        if have as u64 != size {
            return Err(GitError::Gen);
        }
        return Ok((kind, out));
    }
    let n = data.len();
    match read(&data[used..n], &mut inflate, &mut out, size as usize - have) {
        Err(e) => Err(e),
        Ok(more) => if have + more == size as usize {
            Ok((kind, out))
        } else {
            Err(GitError::Gen)
        },
    }
}

} // verus!
