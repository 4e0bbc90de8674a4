//! Decompression.
use crate::bytes::from;
use crate::git::error::GitError;
use vstd::prelude::*;

verus! {

/// How a step of decompression ended.
#[derive(Clone, Copy, Debug, PartialEq, Eq, Structural)]
pub enum Status {
    More,
    BufError,
    StreamEnd,
}

/// The decompressor of zlib-rs.
#[verifier::external_type_specification]
#[verifier::external_body]
pub struct ExInflate(zlib_rs::Inflate);

/// One step: the input that it was given, the room for its output, and whether more input
/// was to follow.
pub struct Step {
    pub input: Seq<u8>,
    pub room: nat,
    pub last: bool,
}

/// The steps that a decompressor has made since it was set up.
pub uninterp spec fn steps_made(z: zlib_rs::Inflate) -> Seq<Step>;

/// What a decompressor that has made the steps `made` does with one more: how it ended, how
/// much of the input it used, and what it gave. `None` where the data is corrupt.
pub uninterp spec fn inflated(made: Seq<Step>, step: Step) -> Option<(Status, nat, Seq<u8>)>;

/// Calls `zlib_rs::Inflate::new` for a stream with a zlib header and the largest window.
#[verifier::external_body]
fn inflate_new() -> (r: zlib_rs::Inflate)
    ensures
        steps_made(r) == Seq::<Step>::empty(),
{
    zlib_rs::Inflate::new(true, 15)
}

/// None of the steps failed.
pub open spec fn went_well(made: Seq<Step>) -> bool
    decreases made.len(),
{
    made.len() == 0 || (went_well(made.drop_last()) && inflated(made.drop_last(), made.last()) is Some)
}

/// How much of its input a decompressor used in all.
pub open spec fn used_in_all(made: Seq<Step>) -> nat
    decreases made.len(),
{
    if made.len() == 0 {
        0
    } else {
        used_in_all(made.drop_last()) + (inflated(made.drop_last(), made.last())->0).1
    }
}

/// How much a decompressor gave in all.
pub open spec fn given_in_all(made: Seq<Step>) -> nat
    decreases made.len(),
{
    if made.len() == 0 {
        0
    } else {
        given_in_all(made.drop_last()) + (inflated(made.drop_last(), made.last())->0).2.len()
    }
}

/// Calls `zlib_rs::Inflate::total_in`: how much of the input all steps used, where none of
/// them failed.
#[verifier::external_body]
fn inflate_total_in(z: &zlib_rs::Inflate) -> (r: u64)
    ensures
        went_well(steps_made(*z)) ==> r == used_in_all(steps_made(*z)),
{
    z.total_in()
}

/// Calls `zlib_rs::Inflate::total_out`: how much all steps gave, where none of them failed.
#[verifier::external_body]
fn inflate_total_out(z: &zlib_rs::Inflate) -> (r: u64)
    ensures
        went_well(steps_made(*z)) ==> r == given_in_all(steps_made(*z)),
{
    z.total_out()
}

/// Calls `zlib_rs::Inflate::decompress`: what it gives is written over the beginning of
/// `out`, and depends on the steps made before, the input, the length of `out` and the flush
/// alone. It uses no more than the input and gives no more than `out` has room for.
#[verifier::external_body]
fn inflate_decompress(z: &mut zlib_rs::Inflate, input: &[u8], out: &mut [u8], last: bool) -> (r: Option<
    Status,
>)
    ensures
        steps_made(*final(z)) == steps_made(*old(z)).push(
            Step { input: input@, room: old(out)@.len(), last },
        ),
        final(out)@.len() == old(out)@.len(),
        match inflated(steps_made(*old(z)), Step { input: input@, room: old(out)@.len(), last }) {
            None => r is None,
            Some((status, used, given)) => r == Some(status) && used <= input@.len() && given.len()
                <= old(out)@.len() && final(out)@.take(given.len() as int) == given,
        },
{
    let flush = if last { zlib_rs::InflateFlush::Finish } else { zlib_rs::InflateFlush::NoFlush };
    match z.decompress(input, out, flush) {
        Ok(zlib_rs::Status::Ok) => Some(Status::More),
        Ok(zlib_rs::Status::BufError) => Some(Status::BufError),
        Ok(zlib_rs::Status::StreamEnd) => Some(Status::StreamEnd),
        Err(_) => None,
    }
}

/// A decompressor.
pub struct Decompress {
    state: zlib_rs::Inflate,
}

impl View for Decompress {
    type V = Seq<Step>;

    closed spec fn view(&self) -> Seq<Step> {
        steps_made(self.state)
    }
}

/// What one step on `input` gives, with room for `room` bytes and no step before it.
pub open spec fn inflated_once(input: Seq<u8>, room: nat) -> Option<(Status, nat, Seq<u8>)> {
    inflated(Seq::empty(), Step { input, room, last: false })
}

impl Decompress {
    /// A decompressor that has made no step.
    pub fn new() -> (r: Decompress)
        ensures
            r@ == Seq::<Step>::empty(),
    {
        Decompress { state: inflate_new() }
    }

    /// Makes a step: how it ended, how much of `input` it used, and how much it wrote to the
    /// beginning of `out`.
    pub fn decompress(&mut self, input: &[u8], out: &mut [u8], last: bool) -> (r: Result<
        (Status, usize, usize),
        GitError,
    >)
        requires
            went_well(old(self)@),
        ensures
            r is Ok ==> went_well(final(self)@),
            final(self)@ == old(self)@.push(Step { input: input@, room: old(out)@.len(), last }),
            final(out)@.len() == old(out)@.len(),
            r matches Ok((status, used, given)) ==> used <= input@.len() && given
                <= old(out)@.len() && inflated(
                old(self)@,
                Step { input: input@, room: old(out)@.len(), last },
            ) == Some((status, used as nat, final(out)@.take(given as int))),
            r matches Err(e) ==> e is Gen && inflated(
                old(self)@,
                Step { input: input@, room: old(out)@.len(), last },
            ) is None,
    {
        let ghost before = self@;
        let before_in: u64 = inflate_total_in(&self.state);
        let before_out: u64 = inflate_total_out(&self.state);
        let (input_len, out_len): (usize, usize) = (input.len(), out.len());
        match inflate_decompress(&mut self.state, input, out, last) {
            Some(status) => {
                assert(self@.drop_last() =~= before);
                let used: u64 = inflate_total_in(&self.state) - before_in;
                let given: u64 = inflate_total_out(&self.state) - before_out;
                Ok((status, used as usize, given as usize))
            },
            None => Err(GitError::Gen),
        }
    }
}

/// The whole of what a step on `input` gives, where the stream ends in it and gives `size`
/// bytes; and how much of the input it used.
pub open spec fn inflated_whole(input: Seq<u8>, size: nat) -> Option<(nat, Seq<u8>)> {
    match inflated_once(input, size) {
        Some((Status::StreamEnd, used, out)) if out.len() == size => Some((used, out)),
        _ => None,
    }
}

/// Decompresses a stream that `input` begins with and that gives `size` bytes.
pub fn inflate_whole(input: &[u8], size: usize) -> (r: Result<(usize, Vec<u8>), GitError>)
    ensures
        r is Ok <==> inflated_whole(input@, size as nat) is Some,
        r matches Ok(x) ==> inflated_whole(input@, size as nat) == Some((x.0 as nat, x.1@)),
        r matches Ok(x) ==> x.1@.len() == size,
        r matches Err(e) ==> e is Gen,
{
    let mut out: Vec<u8> = Vec::new();
    out.resize(size, 0);
    let mut z = Decompress::new();
    match z.decompress(input, out.as_mut_slice(), false) {
        Ok((status, used, given)) => {
            if status != Status::StreamEnd || given != size {
                return Err(GitError::Gen);
            }
            assert(out@.take(given as int) =~= out@);
            Ok((used, out))
        },
        Err(e) => Err(e),
    }
}

/// What reading on from `input` gives, with room for `room` bytes: decompression goes on
/// until the stream ends, the room is full or the input is used up.
pub open spec fn read_on(made: Seq<Step>, input: Seq<u8>, room: nat) -> Option<Seq<u8>>
    decreases input.len() + room,
{
    let step = Step { input, room, last: input.len() == 0 };
    match inflated(made, step) {
        None => None,
        Some((status, used, out)) => if status == Status::StreamEnd || input.len() == 0 || out.len()
            >= room {
            Some(out)
        } else if used > input.len() || used + out.len() == 0 {
            None
        } else {
            match read_on(
                made.push(step),
                from(input, used as int),
                (room - out.len()) as nat,
            ) {
                None => None,
                Some(rest) => Some(out + rest),
            }
        },
    }
}

/// The steps that are made once `input` was read on from.
pub open spec fn steps_after(made: Seq<Step>, input: Seq<u8>, room: nat) -> Seq<Step>
    decreases input.len() + room,
{
    let step = Step { input, room, last: input.len() == 0 };
    match inflated(made, step) {
        None => made.push(step),
        Some((status, used, out)) => if status == Status::StreamEnd || input.len() == 0 || out.len() >= room || used
            > input.len() || used + out.len() == 0 {
            made.push(step)
        } else {
            steps_after(made.push(step), from(input, used as int), (room - out.len()) as nat)
        },
    }
}

/// Reads on from `input`: appends what it gives to `out`, no more than `room` bytes. An
/// error where the data is corrupt, or a step neither used nor gave anything.
pub fn read(input: &[u8], state: &mut Decompress, out: &mut Vec<u8>, room: usize) -> (r: Result<
    usize,
    GitError,
>)
    requires
        went_well(old(state)@),
    ensures
        r is Ok <==> read_on(old(state)@, input@, room as nat) is Some,
        r matches Ok(n) ==> final(out)@ == old(out)@ + read_on(
            old(state)@,
            input@,
            room as nat,
        )->0 && n == read_on(old(state)@, input@, room as nat)->0.len() && n <= room,
        r matches Err(e) ==> e is Gen,
        r is Ok ==> went_well(final(state)@),
        final(state)@ == steps_after(old(state)@, input@, room as nat),
{
    let mut rest: &[u8] = input;
    let mut left: usize = room;
    let ghost start = state@;
    let ghost base = out@;
    let ghost mut given_so_far: Seq<u8> = seq![];
    assert(base + given_so_far =~= base);
    loop
        invariant
            start == old(state)@,
            went_well(state@),
            base == old(out)@,
            out@ == base + given_so_far,
            given_so_far.len() == room - left,
            left <= room,
            steps_after(start, input@, room as nat) == steps_after(state@, rest@, left as nat),
            read_on(start, input@, room as nat) is Some <==> read_on(state@, rest@, left as nat)
                is Some,
            read_on(start, input@, room as nat) is Some ==> read_on(start, input@, room as nat)->0
                == given_so_far + read_on(state@, rest@, left as nat)->0,
        decreases rest@.len() + left,
    {
        let ghost made = state@;
        let eof = rest.len() == 0;
        let mut buf: Vec<u8> = Vec::new();
        buf.resize(left, 0);
        let (status, used, given) = match state.decompress(rest, buf.as_mut_slice(), eof) {
            Ok(x) => x,
            Err(e) => {
                return Err(e);
            },
        };
        buf.truncate(given);
        let ghost piece = buf@;
        assert(inflated(made, Step { input: rest@, room: left as nat, last: eof }) == Some(
            (status, used as nat, piece),
        ));
        if status != Status::StreamEnd && !eof && given < left && used == 0 && given == 0 {
            return Err(GitError::Gen);
        }
        crate::bytes::push_all(out, buf.as_slice());
        assert(out@ =~= base + (given_so_far + piece));
        if status == Status::StreamEnd || eof || given >= left {
            assert(read_on(made, rest@, left as nat) == Some(piece));
            return Ok(room - left + given);
        }
        proof {
            if let Some(more) = read_on(state@, from(rest@, used as int), (left - given) as nat) {
                assert(given_so_far + (piece + more) =~= (given_so_far + piece) + more);
            }
            given_so_far = given_so_far + piece;
        }
        rest = &rest[used..rest.len()];
        left = left - given;
    }
}

} // verus!
