//! Deltas: instructions that build an object from another one.
use crate::bytes::from;
use crate::git::error::GitError;
use vstd::arithmetic::power::{lemma_pow0, lemma_pow1, lemma_pow_adds, pow};
use vstd::prelude::*;

verus! {

/// Two to the power of 64.
pub open spec fn two_64() -> int {
    0x1_0000_0000_0000_0000
}

/// The first position of `d` at or after `i` that holds a byte below 128, or its length.
pub open spec fn varint_end(d: Seq<u8>, i: int) -> int
    decreases d.len() - i,
{
    if i >= d.len() {
        d.len() as int
    } else if d[i] < 128 {
        i
    } else {
        varint_end(d, i + 1)
    }
}

/// The number whose groups of seven bits are the bytes of `d` from `i` to `end`, the lowest
/// group first.
pub open spec fn varint_value(d: Seq<u8>, i: int, end: int) -> int
    decreases end + 1 - i,
{
    if i > end {
        0
    } else {
        d[i] as int % 128 + 128 * varint_value(d, i + 1, end)
    }
}

/// The size that a delta begins with, and how many bytes it takes: at most ten.
pub open spec fn header_size(d: Seq<u8>) -> Option<(int, int)> {
    let end = varint_end(d, 0);
    if end < d.len() && end < 10 {
        Some((varint_value(d, 0, end) % two_64(), end + 1))
    } else {
        None
    }
}

pub proof fn lemma_varint_end(d: Seq<u8>, i: int)
    requires
        0 <= i <= d.len(),
    ensures
        i <= varint_end(d, i) <= d.len(),
        varint_end(d, i) < d.len() ==> d[varint_end(d, i)] < 128,
        forall|j: int| i <= j < varint_end(d, i) ==> d[j] >= 128,
    decreases d.len() - i,
{
    if i < d.len() && d[i] >= 128 {
        lemma_varint_end(d, i + 1);
    }
}

/// A number is the groups up to `k` and the groups after them.
pub proof fn lemma_varint_split(d: Seq<u8>, i: int, k: int, end: int)
    requires
        0 <= i <= k + 1 <= end + 1,
    ensures
        varint_value(d, i, end) == varint_value(d, i, k) + pow(128, (k + 1 - i) as nat)
            * varint_value(d, k + 1, end),
    decreases k + 1 - i,
{
    if i == k + 1 {
        lemma_pow0(128);
    } else {
        lemma_varint_split(d, i + 1, k, end);
        lemma_pow1(128);
        lemma_pow_adds(128, 1, (k - i) as nat);
        let p = pow(128, (k - i) as nat);
        let w = varint_value(d, k + 1, end);
        let q = pow(128, (k + 1 - i) as nat);
        assert(128 * (varint_value(d, i + 1, k) + p * w) == 128 * varint_value(d, i + 1, k) + q
            * w) by (nonlinear_arith)
            requires
                q == 128 * p,
        ;
    }
}

/// Reads the size that a delta begins with, and how many bytes it takes.
pub fn decode_header_size(d: &[u8]) -> (r: Result<(u64, usize), GitError>)
    ensures
        r matches Ok(x) ==> header_size(d@) == Some((x.0 as int, x.1 as int)),
        r matches Err(e) ==> e is Gen && header_size(d@) is None,
{
    proof {
        lemma_varint_end(d@, 0);
        lemma_pow0(128);
    }
    let mut size: u128 = 0;
    let mut unit: u128 = 1;
    let mut i: usize = 0;
    while i < d.len()
        invariant
            i <= d@.len(),
            i <= 10,
            varint_end(d@, 0) == varint_end(d@, i as int),
            size == varint_value(d@, 0, i - 1),
            unit == pow(128, i as nat),
            size < unit,
            i == 0 ==> unit == 1,
            i == 1 ==> unit == 0x80,
            i == 2 ==> unit == 0x4000,
            i == 3 ==> unit == 0x20_0000,
            i == 4 ==> unit == 0x1000_0000,
            i == 5 ==> unit == 0x8_0000_0000,
            i == 6 ==> unit == 0x400_0000_0000,
            i == 7 ==> unit == 0x2_0000_0000_0000,
            i == 8 ==> unit == 0x100_0000_0000_0000,
            i == 9 ==> unit == 0x8000_0000_0000_0000,
            i == 10 ==> unit == 0x40_0000_0000_0000_0000,
        decreases d@.len() - i,
    {
        if i >= 10 {
            proof {
                lemma_varint_end(d@, i as int);
            }
            return Err(GitError::Gen);
        }
        let group: u128 = (d[i] % 128) as u128;
        assert(group * unit <= 127 * unit) by (nonlinear_arith)
            requires
                group <= 127,
                unit >= 1,
        ;
        proof {
            lemma_varint_split(d@, 0, i - 1, i as int);
            lemma_pow1(128);
            lemma_pow_adds(128, 1, i as nat);
            assert(varint_value(d@, i as int, i as int) == group) by {
                assert(varint_value(d@, i + 1, i as int) == 0);
            }
            assert(unit * group == group * unit) by (nonlinear_arith);
        }
        size = size + group * unit;
        unit = unit * 128;
        i += 1;
        if d[i - 1] < 128 {
            let value: u64 = (size % 0x1_0000_0000_0000_0000) as u64;
            return Ok((value, i));
        }
    }
    Err(GitError::Gen)
}

/// The bit of weight `w` is set in `b`.
pub open spec fn has_bit(b: u8, w: int) -> bool {
    (b as int / w) % 2 == 1
}

/// The number whose bytes follow in `data` at `i`, one for each bit of weight `w` and up that
/// is set in `cmd`, of `n` bits, each byte with the weight `u` of its place; and the position
/// after them.
pub open spec fn picked_bytes(data: Seq<u8>, i: int, cmd: u8, w: int, n: nat, u: int) -> Option<
    (int, int),
>
    decreases n,
{
    if n == 0 {
        Some((0, i))
    } else if has_bit(cmd, w) {
        if i >= data.len() {
            None
        } else {
            match picked_bytes(data, i + 1, cmd, 2 * w, (n - 1) as nat, 256 * u) {
                None => None,
                Some((v, j)) => Some((data[i] as int * u + v, j)),
            }
        }
    } else {
        picked_bytes(data, i, cmd, 2 * w, (n - 1) as nat, 256 * u)
    }
}

/// What the copy instruction `cmd`, whose operands begin at `i`, copies: the offset and the
/// size, and the position after the operands.
pub open spec fn copy_operands(data: Seq<u8>, i: int, cmd: u8) -> Option<(int, int, int)> {
    match picked_bytes(data, i, cmd, 1, 4, 1) {
        None => None,
        Some((ofs, j)) => match picked_bytes(data, j, cmd, 16, 3, 1) {
            None => None,
            Some((size, k)) => Some(
                (
                    ofs,
                    if size == 0 {
                        0x10000
                    } else {
                        size
                    },
                    k,
                ),
            ),
        },
    }
}

pub proof fn lemma_picked_bytes_advance(data: Seq<u8>, i: int, cmd: u8, w: int, n: nat, u: int)
    requires
        0 <= i <= data.len(),
        u >= 1,
    ensures
        picked_bytes(data, i, cmd, w, n, u) matches Some(x) ==> i <= x.1 <= data.len() && x.0 >= 0,
    decreases n,
{
    if n > 0 {
        if has_bit(cmd, w) {
            if i < data.len() {
                lemma_picked_bytes_advance(data, i + 1, cmd, 2 * w, (n - 1) as nat, 256 * u);
                let b = data[i] as int;
                assert(b * u >= 0) by (nonlinear_arith)
                    requires
                        b >= 0,
                        u >= 1,
                ;
            }
        } else {
            lemma_picked_bytes_advance(data, i, cmd, 2 * w, (n - 1) as nat, 256 * u);
        }
    }
}

pub proof fn lemma_copy_operands_advance(data: Seq<u8>, i: int, cmd: u8)
    requires
        0 <= i <= data.len(),
    ensures
        copy_operands(data, i, cmd) matches Some(x) ==> i <= x.2 <= data.len() && x.0 >= 0 && x.1
            > 0,
{
    lemma_picked_bytes_advance(data, i, cmd, 1, 4, 1);
    if let Some((ofs, j)) = picked_bytes(data, i, cmd, 1, 4, 1) {
        lemma_picked_bytes_advance(data, j, cmd, 16, 3, 1);
    }
}

/// What the instructions of `data` from `i` on build from `base`. `None` where an
/// instruction is cut off, is zero, or copies what `base` does not hold.
pub open spec fn delta_output(base: Seq<u8>, data: Seq<u8>, i: int) -> Option<Seq<u8>>
    decreases data.len() - i,
    when 0 <= i <= data.len()
{
    if i >= data.len() {
        Some(seq![])
    } else {
        let cmd = data[i];
        if cmd >= 128 {
            proof {
                lemma_copy_operands_advance(data, i + 1, cmd);
            }
            match copy_operands(data, i + 1, cmd) {
                None => None,
                Some((ofs, size, next)) => if ofs + size > base.len() {
                    None
                } else {
                    match delta_output(base, data, next) {
                        None => None,
                        Some(rest) => Some(base.subrange(ofs, ofs + size) + rest),
                    }
                },
            }
        } else if cmd == 0 || i + 1 + cmd > data.len() {
            None
        } else {
            match delta_output(base, data, i + 1 + cmd) {
                None => None,
                Some(rest) => Some(data.subrange(i + 1, i + 1 + cmd) + rest),
            }
        }
    }
}

/// The object of `size` bytes that the instructions of `data` build from `base`. Bytes that
/// they give beyond `size` are dropped; `None` where they give fewer.
pub open spec fn applied(base: Seq<u8>, data: Seq<u8>, size: int) -> Option<Seq<u8>> {
    match delta_output(base, data, 0) {
        None => None,
        Some(out) => if out.len() >= size {
            Some(out.take(size))
        } else {
            None
        },
    }
}

/// Reads the number whose bytes follow at `i`, one for each bit that is set in `cmd` of the
/// `n` bits of weight `w` and up, each byte with the weight `u` of its place.
fn read_picked_bytes(data: &[u8], i: usize, cmd: u8, w: u16, n: u8, u: u64) -> (r: Option<
    (u64, usize),
>)
    requires
        i <= data@.len(),
        n <= 4,
        1 <= w <= 256,
        n >= 1 ==> w <= 128,
        n >= 2 ==> w <= 64,
        n >= 3 ==> w <= 32,
        n >= 4 ==> w <= 16,
        1 <= u <= 0x1_0000_0000,
        n >= 1 ==> u <= 0x100_0000,
        n >= 2 ==> u <= 0x1_0000,
        n >= 3 ==> u <= 0x100,
        n >= 4 ==> u <= 1,
    ensures
        r is None <==> picked_bytes(data@, i as int, cmd, w as int, n as nat, u as int) is None,
        r matches Some(x) ==> picked_bytes(data@, i as int, cmd, w as int, n as nat, u as int)
            == Some((x.0 as int, x.1 as int)) && i <= x.1 <= data@.len(),
        r matches Some(x) ==> {
            &&& n == 0 ==> x.0 == 0
            &&& n == 1 ==> x.0 <= 0xff * u
            &&& n == 2 ==> x.0 <= 0xffff * u
            &&& n == 3 ==> x.0 <= 0xff_ffff * u
            &&& n == 4 ==> x.0 <= 0xffff_ffff * u
        },
    decreases n,
{
    if n == 0 {
        return Some((0, i));
    }
    if (cmd as u16 / w) % 2 == 1 {
        if i >= data.len() {
            return None;
        }
        match read_picked_bytes(data, i + 1, cmd, 2 * w, n - 1, 256 * u) {
            None => None,
            Some((v, j)) => {
                let b: u64 = data[i] as u64;
                assert(b * u <= 255 * u) by (nonlinear_arith)
                    requires
                        b <= 255,
                        u >= 1,
                ;
                Some((b * u + v, j))
            },
        }
    } else {
        read_picked_bytes(data, i, cmd, 2 * w, n - 1, 256 * u)
    }
}

/// Reads the operands of the copy instruction `cmd`.
fn read_copy_operands(data: &[u8], start: usize, cmd: u8) -> (r: Option<(u32, u32, usize)>)
    requires
        start <= data@.len(),
    ensures
        r is None <==> copy_operands(data@, start as int, cmd) is None,
        r matches Some(x) ==> copy_operands(data@, start as int, cmd) == Some(
            (x.0 as int, x.1 as int, x.2 as int),
        ) && start <= x.2 <= data@.len(),
{
    match read_picked_bytes(data, start, cmd, 1, 4, 1) {
        None => None,
        Some((ofs, i)) => match read_picked_bytes(data, i, cmd, 16, 3, 1) {
            None => None,
            Some((size, j)) => {
                if size == 0 {
                    Some((ofs as u32, 0x10000, j))
                } else {
                    Some((ofs as u32, size as u32, j))
                }
            },
        },
    }
}

/// Overwrites the bytes of `target` from `at` on with those of `piece`, as far as they go
/// below `size`; the position after them.
fn write_piece(target: &mut Vec<u8>, at: usize, size: usize, piece: &[u8]) -> (r: usize)
    requires
        at <= size <= old(target)@.len(),
    ensures
        final(target)@.len() == old(target)@.len(),
        at <= r <= size,
        r - at == (if piece@.len() < size - at {
            piece@.len() as int
        } else {
            size - at
        }),
        final(target)@.take(r as int) == old(target)@.take(at as int) + piece@.take(r - at),
        from(final(target)@, size as int) == from(old(target)@, size as int),
{
    let mut i: usize = at;
    let mut k: usize = 0;
    let ghost before = target@;
    while i < size && k < piece.len()
        invariant
            at <= i <= size <= before.len(),
            target@.len() == before.len(),
            k == i - at,
            k <= piece@.len(),
            forall|j: int| 0 <= j < at ==> target@[j] == before[j],
            forall|j: int| at <= j < i ==> target@[j] == piece@[j - at],
            forall|j: int| i <= j < before.len() ==> target@[j] == before[j],
        decreases size - i,
    {
        target.set(i, piece[k]);
        i += 1;
        k += 1;
    }
    assert(target@.take(i as int) =~= before.take(at as int) + piece@.take(i - at));
    assert(from(target@, size as int) =~= from(before, size as int));
    i
}

/// Runs the instructions of `data` on `base` and writes the first `size` bytes that they give
/// over the beginning of `target`.
pub fn apply(base: &[u8], target: &mut Vec<u8>, size: usize, data: &[u8]) -> (r: Result<
    (),
    GitError,
>)
    requires
        size <= old(target)@.len(),
    ensures
        r is Ok <==> applied(base@, data@, size as int) is Some,
        r is Ok ==> final(target)@ == applied(base@, data@, size as int)->0 + from(
            old(target)@,
            size as int,
        ),
        r matches Err(e) ==> e is Gen,
        final(target)@.len() == old(target)@.len(),
{
    let ghost before = target@;
    let ghost goal = delta_output(base@, data@, 0);
    let ghost mut built: Seq<u8> = seq![];
    let base_len: usize = base.len();
    let mut at: usize = 0;
    let mut i: usize = 0;
    assert(delta_output(base@, data@, 0) matches Some(o) ==> built + o =~= o);
    while i < data.len()
        invariant
            i <= data@.len(),
            before == old(target)@,
            base_len == base@.len(),
            at <= size <= before.len(),
            target@.len() == before.len(),
            from(target@, size as int) == from(before, size as int),
            at == (if built.len() < size {
                built.len() as int
            } else {
                size as int
            }),
            target@.take(at as int) == built.take(at as int),
            goal == delta_output(base@, data@, 0),
            goal is Some <==> delta_output(base@, data@, i as int) is Some,
            goal is Some ==> goal->0 == built + delta_output(base@, data@, i as int)->0,
        decreases data@.len() - i,
    {
        let cmd: u8 = data[i];
        let ghost at_before = at;
        let ghost built_before = built;
        let ghost piece: Seq<u8>;
        if cmd >= 128 {
            proof {
                lemma_copy_operands_advance(data@, i + 1, cmd);
            }
            let (ofs, count, next) = match read_copy_operands(data, i + 1, cmd) {
                Some(x) => x,
                None => {
                    return Err(GitError::Gen);
                },
            };
            let end: usize = match (ofs as usize).checked_add(count as usize) {
                Some(end) => end,
                None => {
                    return Err(GitError::Gen);
                },
            };
            if end > base_len {
                return Err(GitError::Gen);
            }
            at = write_piece(target, at, size, &base[ofs as usize..end]);
            proof {
                piece = base@.subrange(ofs as int, end as int);
                lemma_append(built, piece, delta_output(base@, data@, next as int));
            }
            i = next;
        } else if cmd == 0 {
            return Err(GitError::Gen);
        } else {
            let count: usize = cmd as usize;
            if count > data.len() - (i + 1) {
                return Err(GitError::Gen);
            }
            at = write_piece(target, at, size, &data[i + 1..i + 1 + count]);
            proof {
                piece = data@.subrange(i + 1, i + 1 + count);
                lemma_append(built, piece, delta_output(base@, data@, i + 1 + count));
            }
            i = i + 1 + count;
        }
        proof {
            built = built + piece;
            assert(target@.take(at as int) =~= built.take(at as int));
        }
    }
    assert(delta_output(base@, data@, i as int)->0 =~= seq![]);
    assert(built + seq![] =~= built);
    if at != size {
        return Err(GitError::Gen);
    }
    assert(target@ =~= target@.take(size as int) + from(target@, size as int));
    Ok(())
}

proof fn lemma_append(built: Seq<u8>, piece: Seq<u8>, rest: Option<Seq<u8>>)
    ensures
        rest matches Some(r) ==> built + (piece + r) == (built + piece) + r,
{
    if let Some(r) = rest {
        assert(built + (piece + r) =~= (built + piece) + r);
    }
}

/// One step in building an object from another one.
pub enum Instruction {
    /// The `size` bytes of the other object at `offset` come next.
    Copy { offset: int, size: int },
    /// These bytes come next.
    Insert(Seq<u8>),
}

/// The lowest `n` bytes of a number, the lowest first.
pub open spec fn low_bytes(value: int, n: nat) -> Seq<u8>
    decreases n,
{
    if n == 0 {
        seq![]
    } else {
        seq![(value % 256) as u8] + low_bytes(value / 256, (n - 1) as nat)
    }
}

/// The bytes that are not zero.
pub open spec fn nonzero(v: Seq<u8>) -> Seq<u8>
    decreases v.len(),
{
    if v.len() == 0 {
        seq![]
    } else if v[0] != 0 {
        seq![v[0]] + nonzero(v.drop_first())
    } else {
        nonzero(v.drop_first())
    }
}

/// The number with a bit for each of the bytes, the lowest for the first, which is set where
/// the byte is not zero.
pub open spec fn nonzero_bits(v: Seq<u8>) -> int
    decreases v.len(),
{
    if v.len() == 0 {
        0
    } else {
        (if v[0] != 0 {
            1int
        } else {
            0int
        }) + 2 * nonzero_bits(v.drop_first())
    }
}

impl Instruction {
    /// The instruction can be written and gives something from `base`. A size of zero stands
    /// for 65536.
    pub open spec fn valid(self, base: Seq<u8>) -> bool {
        match self {
            Instruction::Copy { offset, size } => {
                &&& 0 <= offset < 0x1_0000_0000
                &&& 0 <= size < 0x100_0000
                &&& offset + (if size == 0 {
                    0x10000
                } else {
                    size
                }) <= base.len()
            },
            Instruction::Insert(bytes) => 0 < bytes.len() < 128,
        }
    }

    /// What comes next.
    pub open spec fn gives(self, base: Seq<u8>) -> Seq<u8> {
        match self {
            Instruction::Copy { offset, size } => base.subrange(
                offset,
                offset + (if size == 0 {
                    0x10000
                } else {
                    size
                }),
            ),
            Instruction::Insert(bytes) => bytes,
        }
    }

    /// The instruction as it is written: to copy, a byte whose highest bit is set and whose
    /// other bits say which bytes of the offset and of the size follow, to insert, the number
    /// of bytes and the bytes.
    pub open spec fn written(self) -> Seq<u8> {
        match self {
            Instruction::Copy { offset, size } => {
                let operands = low_bytes(offset, 4) + low_bytes(size, 3);
                seq![(128 + nonzero_bits(operands)) as u8] + nonzero(operands)
            },
            Instruction::Insert(bytes) => seq![bytes.len() as u8] + bytes,
        }
    }
}

/// All instructions as they are written, one after the other.
pub open spec fn all_written(v: Seq<Instruction>) -> Seq<u8>
    decreases v.len(),
{
    if v.len() == 0 {
        seq![]
    } else {
        v[0].written() + all_written(v.drop_first())
    }
}

/// What all instructions give, one after the other.
pub open spec fn all_given(v: Seq<Instruction>, base: Seq<u8>) -> Seq<u8>
    decreases v.len(),
{
    if v.len() == 0 {
        seq![]
    } else {
        v[0].gives(base) + all_given(v.drop_first(), base)
    }
}

/// The bits of `cmd` from the weight `w` on are set where the bytes are not zero.
spec fn marks(cmd: u8, w: int, v: Seq<u8>) -> bool
    decreases v.len(),
{
    v.len() == 0 || (has_bit(cmd, w) == (v[0] != 0) && marks(cmd, 2 * w, v.drop_first()))
}

/// The number with these bytes, the lowest first.
spec fn of_bytes(v: Seq<u8>) -> int
    decreases v.len(),
{
    if v.len() == 0 {
        0
    } else {
        v[0] as int + 256 * of_bytes(v.drop_first())
    }
}

proof fn lemma_picked(data: Seq<u8>, i: int, cmd: u8, w: int, u: int, v: Seq<u8>)
    requires
        marks(cmd, w, v),
        0 <= i,
        i + nonzero(v).len() <= data.len(),
        data.subrange(i, i + nonzero(v).len()) == nonzero(v),
    ensures
        picked_bytes(data, i, cmd, w, v.len(), u) == Some((of_bytes(v) * u, i + nonzero(v).len())),
    decreases v.len(),
{
    if v.len() > 0 {
        let rest = v.drop_first();
        let found = data.subrange(i, i + nonzero(v).len());
        let high = of_bytes(rest);
        let low = v[0] as int;
        if v[0] != 0 {
            assert(found[0] == v[0]);
            assert(data[i] == v[0]);
            assert(data.subrange(i + 1, i + 1 + nonzero(rest).len()) =~= nonzero(rest)) by {
                assert forall|k: int| 0 <= k < nonzero(rest).len() implies data[i + 1 + k] == #[trigger] nonzero(
                    rest,
                )[k] by {
                    assert(found[k + 1] == nonzero(v)[k + 1]);
                }
            }
            lemma_picked(data, i + 1, cmd, 2 * w, 256 * u, rest);
        } else {
            lemma_picked(data, i, cmd, 2 * w, 256 * u, rest);
        }
        assert((low + 256 * high) * u == low * u + high * (256 * u)) by (nonlinear_arith);
        assert(low == 0 ==> low * u == 0);
    } else {
        assert(of_bytes(v) * u == 0) by (nonlinear_arith)
            requires
                of_bytes(v) == 0,
        ;
    }
}

proof fn lemma_low_bytes(value: int, n: nat)
    requires
        0 <= value,
    ensures
        low_bytes(value, n).len() == n,
        n == 3 && value < 0x100_0000 ==> of_bytes(low_bytes(value, n)) == value,
        n == 4 && value < 0x1_0000_0000 ==> of_bytes(low_bytes(value, n)) == value,
        n == 0 && value == 0 ==> of_bytes(low_bytes(value, n)) == value,
        n == 1 && value < 0x100 ==> of_bytes(low_bytes(value, n)) == value,
        n == 2 && value < 0x1_0000 ==> of_bytes(low_bytes(value, n)) == value,
    decreases n,
{
    if n > 0 {
        lemma_low_bytes(value / 256, (n - 1) as nat);
        assert(low_bytes(value, n).drop_first() =~= low_bytes(value / 256, (n - 1) as nat));
    }
}

proof fn lemma_nonzero_concat(a: Seq<u8>, b: Seq<u8>)
    ensures
        nonzero(a + b) == nonzero(a) + nonzero(b),
    decreases a.len(),
{
    if a.len() == 0 {
        assert(a + b =~= b);
        assert(nonzero(a) + nonzero(b) =~= nonzero(b));
    } else {
        lemma_nonzero_concat(a.drop_first(), b);
        assert((a + b).drop_first() =~= a.drop_first() + b);
        assert(nonzero(a + b) =~= nonzero(a) + nonzero(b));
    }
}

/// Seven bytes and the byte that says which of them are not zero.
proof fn lemma_marks(a: Seq<u8>, b: Seq<u8>)
    requires
        a.len() == 4,
        b.len() == 3,
    ensures
        0 <= nonzero_bits(a + b) < 128,
        marks((128 + nonzero_bits(a + b)) as u8, 1, a),
        marks((128 + nonzero_bits(a + b)) as u8, 16, b),
{
    let v = a + b;
    let bit = |x: u8| if x != 0 {
        1int
    } else {
        0int
    };
    assert(nonzero_bits(v) == bit(v[0]) + 2 * bit(v[1]) + 4 * bit(v[2]) + 8 * bit(v[3]) + 16 * bit(v[4]) + 32 * bit(
        v[5],
    ) + 64 * bit(v[6])) by {
        reveal_with_fuel(nonzero_bits, 8);
    }
    let cmd = (128 + nonzero_bits(v)) as u8;
    assert(has_bit(cmd, 1) == (a[0] != 0));
    assert(has_bit(cmd, 2) == (a[1] != 0));
    assert(has_bit(cmd, 4) == (a[2] != 0));
    assert(has_bit(cmd, 8) == (a[3] != 0));
    assert(has_bit(cmd, 16) == (b[0] != 0));
    assert(has_bit(cmd, 32) == (b[1] != 0));
    assert(has_bit(cmd, 64) == (b[2] != 0));
    reveal_with_fuel(marks, 5);
}

proof fn lemma_copy_read_back(data: Seq<u8>, i: int, offset: int, size: int)
    requires
        0 <= offset < 0x1_0000_0000,
        0 <= size < 0x100_0000,
        0 <= i,
        i + (Instruction::Copy { offset, size }).written().len() <= data.len(),
        data.subrange(i, i + (Instruction::Copy { offset, size }).written().len()) == (Instruction::Copy {
            offset,
            size,
        }).written(),
    ensures
        data[i] >= 128,
        copy_operands(data, i + 1, data[i]) == Some(
            (
                offset,
                if size == 0 {
                    0x10000
                } else {
                    size
                },
                i + (Instruction::Copy { offset, size }).written().len(),
            ),
        ),
{
    let a = low_bytes(offset, 4);
    let b = low_bytes(size, 3);
    let w = (Instruction::Copy { offset, size }).written();
    let found = data.subrange(i, i + w.len());
    lemma_low_bytes(offset, 4);
    lemma_low_bytes(size, 3);
    lemma_marks(a, b);
    lemma_nonzero_concat(a, b);
    assert(found[0] == w[0]);
    let j = i + 1 + nonzero(a).len();
    assert(data.subrange(i + 1, j) =~= nonzero(a)) by {
        assert forall|k: int| 0 <= k < nonzero(a).len() implies data[i + 1 + k] == #[trigger] nonzero(a)[k] by {
            assert(found[k + 1] == w[k + 1]);
        }
    }
    assert(data.subrange(j, j + nonzero(b).len()) =~= nonzero(b)) by {
        assert forall|k: int| 0 <= k < nonzero(b).len() implies data[j + k] == #[trigger] nonzero(b)[k] by {
            assert(found[1 + nonzero(a).len() + k] == w[1 + nonzero(a).len() + k]);
        }
    }
    lemma_picked(data, i + 1, data[i], 1, 1, a);
    lemma_picked(data, j, data[i], 16, 1, b);
}

proof fn lemma_all_written(v: Seq<Instruction>, base: Seq<u8>, data: Seq<u8>, i: int)
    requires
        0 <= i <= data.len(),
        from(data, i) == all_written(v),
        forall|k: int| 0 <= k < v.len() ==> (#[trigger] v[k]).valid(base),
    ensures
        delta_output(base, data, i) == Some(all_given(v, base)),
    decreases v.len(),
{
    let rest = from(data, i);
    if v.len() > 0 {
        let w = v[0].written();
        let more = v.drop_first();
        let next = i + w.len();
        assert(v[0].valid(base));
        assert forall|k: int| 0 <= k < more.len() implies (#[trigger] more[k]).valid(base) by {
            assert(more[k] == v[k + 1]);
        }
        assert(rest == w + all_written(more));
        assert(data.subrange(i, next) =~= w) by {
            assert forall|k: int| 0 <= k < w.len() implies data[i + k] == #[trigger] w[k] by {
                assert(rest[k] == (w + all_written(more))[k]);
            }
        }
        assert(from(data, next) =~= all_written(more)) by {
            assert forall|k: int| 0 <= k < all_written(more).len() implies data[next + k] == #[trigger] all_written(
                more,
            )[k] by {
                assert(rest[w.len() + k] == (w + all_written(more))[w.len() + k]);
            }
        }
        lemma_all_written(more, base, data, next);
        assert(data[i] == w[0]) by {
            assert(data.subrange(i, next)[0] == w[0]);
        }
        match v[0] {
            Instruction::Copy { offset, size } => {
                lemma_copy_read_back(data, i, offset, size);
            },
            Instruction::Insert(bytes) => {
                assert(data.subrange(i + 1, next) =~= bytes) by {
                    assert forall|k: int| 0 <= k < bytes.len() implies data[i + 1 + k] == #[trigger] bytes[k] by {
                        assert(data.subrange(i, next)[k + 1] == w[k + 1]);
                    }
                }
            },
        }
    } else {
        assert(rest.len() == 0);
    }
}

/// Applying a delta gives what its instructions say, one after the other: copies come from
/// where their offset says and are as long as their size says, and inserted bytes come as they
/// are.
pub proof fn law_written_instructions_are_carried_out(v: Seq<Instruction>, base: Seq<u8>, size: int)
    requires
        forall|k: int| 0 <= k < v.len() ==> (#[trigger] v[k]).valid(base),
        0 <= size,
    ensures
        size <= all_given(v, base).len() ==> applied(base, all_written(v), size) == Some(
            all_given(v, base).take(size),
        ),
        size > all_given(v, base).len() ==> applied(base, all_written(v), size) is None,
{
    let data = all_written(v);
    assert(from(data, 0) =~= data);
    lemma_all_written(v, base, data, 0);
}

/// The operands of an instruction to copy are read as they were written, whatever follows.
pub proof fn law_copy_operands_read_back(offset: int, size: int, rest: Seq<u8>)
    requires
        0 <= offset < 0x1_0000_0000,
        0 < size < 0x100_0000,
    ensures
        ({
            let w = (Instruction::Copy { offset, size }).written();
            &&& w[0] >= 128
            &&& copy_operands(w + rest, 1, w[0]) == Some((offset, size, w.len() as int))
        }),
{
    let w = (Instruction::Copy { offset, size }).written();
    assert((w + rest).subrange(0, w.len() as int) =~= w);
    lemma_copy_read_back(w + rest, 0, offset, size);
}

/// A delta that copies what the other object does not hold gives nothing.
pub proof fn law_copy_past_the_end_fails(v: Seq<Instruction>, base: Seq<u8>, offset: int, size: int)
    requires
        v.len() > 0,
        v[0] == (Instruction::Copy { offset, size }),
        0 <= offset < 0x1_0000_0000,
        0 < size < 0x100_0000,
        offset + size > base.len(),
    ensures
        applied(base, all_written(v), 0) is None,
{
    let w = v[0].written();
    let data = all_written(v);
    assert(data.subrange(0, w.len() as int) =~= w);
    lemma_copy_read_back(data, 0, offset, size);
}

/// The bytes of a size: groups of seven bits, the lowest first, all but the last marked by
/// 128.
pub open spec fn size_bytes(n: nat) -> Seq<u8>
    decreases n,
{
    if n < 128 {
        seq![n as u8]
    } else {
        seq![(128 + n % 128) as u8] + size_bytes(n / 128)
    }
}

proof fn lemma_size_bytes(n: nat, d: Seq<u8>, i: int)
    requires
        0 <= i,
        i + size_bytes(n).len() <= d.len(),
        d.subrange(i, i + size_bytes(n).len()) == size_bytes(n),
    ensures
        size_bytes(n).len() > 0,
        varint_end(d, i) == i + size_bytes(n).len() - 1,
        varint_value(d, i, i + size_bytes(n).len() - 1) == n,
        n < 0x80 ==> size_bytes(n).len() == 1,
    decreases n,
{
    let b = size_bytes(n);
    let found = d.subrange(i, i + b.len());
    assert(b.len() > 0);
    assert(found[0] == b[0]);
    if n >= 128 {
        let more = size_bytes(n / 128);
        assert(d.subrange(i + 1, i + 1 + more.len()) =~= more) by {
            assert forall|k: int| 0 <= k < more.len() implies d[i + 1 + k] == #[trigger] more[k] by {
                assert(found[k + 1] == b[k + 1]);
            }
        }
        lemma_size_bytes(n / 128, d, i + 1);
    } else {
        assert(varint_value(d, i + 1, i) == 0);
    }
}

proof fn lemma_size_bytes_len(n: nat, k: nat)
    requires
        n < pow(128, k),
        k > 0,
    ensures
        size_bytes(n).len() <= k,
    decreases k,
{
    if n >= 128 {
        if k == 1 {
            lemma_pow1(128);
        } else {
            lemma_pow1(128);
            lemma_pow_adds(128, 1, (k - 1) as nat);
            let p = pow(128, (k - 1) as nat);
            assert(n / 128 < p) by (nonlinear_arith)
                requires
                    n < 128 * p,
            ;
            lemma_size_bytes_len(n / 128, (k - 1) as nat);
        }
    }
}

/// A size that a delta begins with is read as it was written, whatever follows.
pub proof fn law_size_read_back(n: u64, rest: Seq<u8>)
    ensures
        header_size(size_bytes(n as nat) + rest) == Some((n as int, size_bytes(n as nat).len() as int)),
{
    let b = size_bytes(n as nat);
    let d = b + rest;
    assert(d.subrange(0, b.len() as int) =~= b);
    lemma_size_bytes(n as nat, d, 0);
    assert(pow(128, 10) == 0x40_0000_0000_0000_0000) by {
        reveal(pow);
        reveal_with_fuel(pow, 11);
    }
    lemma_size_bytes_len(n as nat, 10);
}

} // verus!
