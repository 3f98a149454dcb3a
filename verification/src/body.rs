//! The body of an upstream response, read piece by piece up to a limit.
use bytes::{Bytes, BytesMut};
use vstd::prelude::*;

verus! {

// ------------------------------------------------------------- outside calls

#[verifier::external_type_specification]
#[verifier::external_body]
pub struct ExBytes(Bytes);

#[verifier::external_type_specification]
#[verifier::external_body]
pub struct ExBytesMut(BytesMut);

/// The bytes that a buffer holds.
pub uninterp spec fn buffered(buffer: BytesMut) -> Seq<u8>;

/// The bytes that are held.
pub uninterp spec fn held(bytes: Bytes) -> Seq<u8>;

/// Calls `BytesMut::new`: a buffer without a byte.
#[verifier::external_body]
fn empty_buffer() -> (buffer: BytesMut)
    ensures
        buffered(buffer) == Seq::<u8>::empty(),
{
    BytesMut::new()
}

/// Calls `BytesMut::len`: how many bytes the buffer holds.
#[verifier::external_body]
fn buffer_len(buffer: &BytesMut) -> (len: usize)
    ensures
        len == buffered(*buffer).len(),
{
    buffer.len()
}

/// Calls `BytesMut::extend_from_slice`: the bytes are put behind those that the
/// buffer holds. A buffer grows as a vector does, by doubling, and that panics
/// where a vector would be too long; below `MAX_BUFFERED` it does not.
#[verifier::external_body]
fn extend_buffer(buffer: &mut BytesMut, bytes: &[u8])
    requires
        buffered(*old(buffer)).len() + bytes@.len() <= MAX_BUFFERED,
    ensures
        buffered(*final(buffer)) == buffered(*old(buffer)) + bytes@,
{
    buffer.extend_from_slice(bytes);
}

/// Calls `BytesMut::freeze`: the bytes that the buffer holds, as they are.
#[verifier::external_body]
fn freeze_buffer(buffer: BytesMut) -> (bytes: Bytes)
    ensures
        held(bytes) == buffered(buffer),
{
    buffer.freeze()
}

// --------------------------------------------------------------------- types

/// The most that is ever buffered: a quarter of what memory can address.
pub const MAX_BUFFERED: usize = usize::MAX / 4;

/// A body that is being read.
#[derive(Debug)]
pub struct LimitedBody {
    /// What was read of it.
    pub read: BytesMut,
    /// The most that may be read.
    pub max_bytes: u64,
}

/// A body is longer than may be read.
#[derive(Debug, Clone, Copy, PartialEq, Eq, Structural)]
pub struct TooLarge;

// ---------------------------------------------------------------- statements

/// All the pieces, one behind the other.
pub open spec fn assembled(chunks: Seq<Seq<u8>>) -> Seq<u8>
    decreases chunks.len(),
{
    if chunks.len() == 0 {
        Seq::empty()
    } else {
        assembled(chunks.drop_last()) + chunks.last()
    }
}

/// What was read once these pieces came, or nothing where they are too long.
pub open spec fn read_up_to(chunks: Seq<Seq<u8>>, max_bytes: int) -> Option<Seq<u8>>
    decreases chunks.len(),
{
    if chunks.len() == 0 {
        Some(Seq::empty())
    } else {
        match read_up_to(chunks.drop_last(), max_bytes) {
            None => None,
            Some(front) => with_chunk(front, chunks.last(), max_bytes),
        }
    }
}

/// What was read once one more piece came, or nothing where that is too long.
pub open spec fn with_chunk(front: Seq<u8>, chunk: Seq<u8>, max_bytes: int) -> Option<Seq<u8>> {
    if front.len() + chunk.len() > max_bytes {
        None
    } else {
        Some(front + chunk)
    }
}

// ---------------------------------------------------------------- operations

impl LimitedBody {
    /// Nothing was read yet.
    pub fn new(max_bytes: u64) -> (r: Self)
        ensures
            buffered(r.read) == Seq::<u8>::empty(),
            r.max_bytes == max_bytes,
    {
        LimitedBody { read: empty_buffer(), max_bytes }
    }

    /// How many bytes were read.
    pub fn len(&self) -> (len: usize)
        ensures
            len == buffered(self.read).len(),
    {
        buffer_len(&self.read)
    }

    /// Puts a piece behind what was read, unless the body is too long with it.
    /// What is not too long must fit in memory.
    pub fn push(&mut self, chunk: &[u8]) -> (r: Result<(), TooLarge>)
        requires
            buffered(old(self).read).len() + chunk@.len() <= old(self).max_bytes ==> buffered(
                old(self).read,
            ).len() + chunk@.len() <= MAX_BUFFERED,
        ensures
            final(self).max_bytes == old(self).max_bytes,
            match r {
                Ok(_) => with_chunk(
                    buffered(old(self).read),
                    chunk@,
                    old(self).max_bytes as int,
                ) == Some(buffered(final(self).read)),
                Err(_) => with_chunk(
                    buffered(old(self).read),
                    chunk@,
                    old(self).max_bytes as int,
                ) is None && final(self).read == old(self).read,
            },
    {
        let len: u128 = buffer_len(&self.read) as u128 + chunk.len() as u128;
        if len > self.max_bytes as u128 {
            return Err(TooLarge);
        }
        extend_buffer(&mut self.read, chunk);
        Ok(())
    }

    /// Puts a piece behind what was read, unless the body is too long with it.
    /// Where it is not, but does not fit in memory, nothing is done.
    pub fn offer(&mut self, chunk: &[u8]) -> (r: Option<Result<(), TooLarge>>)
        ensures
            final(self).max_bytes == old(self).max_bytes,
            match r {
                Some(Ok(_)) => with_chunk(
                    buffered(old(self).read),
                    chunk@,
                    old(self).max_bytes as int,
                ) == Some(buffered(final(self).read)),
                Some(Err(_)) => with_chunk(
                    buffered(old(self).read),
                    chunk@,
                    old(self).max_bytes as int,
                ) is None && final(self).read == old(self).read,
                None => with_chunk(
                    buffered(old(self).read),
                    chunk@,
                    old(self).max_bytes as int,
                ) is Some && buffered(old(self).read).len() + chunk@.len() > MAX_BUFFERED
                    && final(self).read == old(self).read,
            },
    {
        let len: u128 = buffer_len(&self.read) as u128 + chunk.len() as u128;
        if len <= self.max_bytes as u128 && len > MAX_BUFFERED as u128 {
            return None;
        }
        Some(self.push(chunk))
    }

    /// The whole body.
    pub fn finish(self) -> (bytes: Bytes)
        ensures
            held(bytes) == buffered(self.read),
    {
        freeze_buffer(self.read)
    }
}

// ---------------------------------------------------------------------- laws

/// A body is read whole, or not at all: that depends on its length alone, and
/// not on the pieces that it comes in.
pub proof fn bodies_are_read_whole(chunks: Seq<Seq<u8>>, max_bytes: int)
    requires
        0 <= max_bytes,
    ensures
        read_up_to(chunks, max_bytes) == if assembled(chunks).len() <= max_bytes {
            Some(assembled(chunks))
        } else {
            None
        },
    decreases chunks.len(),
{
    if chunks.len() > 0 {
        bodies_are_read_whole(chunks.drop_last(), max_bytes);
    }
}

/// A piece is put behind what was read exactly if both together are no longer
/// than may be read.
pub proof fn pieces_are_taken_up_to_the_limit(front: Seq<u8>, chunk: Seq<u8>, max_bytes: int)
    ensures
        (front + chunk).len() <= max_bytes ==> with_chunk(front, chunk, max_bytes) == Some(
            front + chunk,
        ),
        (front + chunk).len() > max_bytes ==> with_chunk(front, chunk, max_bytes) is None,
{
}

/// All that is not too long is read, unless it takes more than a quarter of what
/// memory can address.
pub proof fn memory_is_the_only_other_limit(len: nat)
    ensures
        4 * len <= usize::MAX ==> len <= MAX_BUFFERED,
{
}

} // verus!
