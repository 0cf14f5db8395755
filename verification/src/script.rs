//! What an encoding step asks of the buffer, as a mathematical object.

use crate::ser::Error;
use vstd::prelude::*;

verus! {

/// The writes of one encoding step: chunks that are appended in order, each of them whole or
/// not at all, and the error that ends the step once they are written, if there is one.
pub struct Script {
    pub chunks: Seq<Seq<u8>>,
    pub failure: Option<Error>,
}

/// All chunks in one piece.
pub open spec fn flat(chunks: Seq<Seq<u8>>) -> Seq<u8>
    decreases chunks.len(),
{
    if chunks.len() == 0 {
        Seq::<u8>::empty()
    } else {
        chunks[0] + flat(chunks.drop_first())
    }
}

/// The buffer after the chunks were appended to `buf` one by one, stopping before the first
/// that would take it beyond `capacity`.
pub open spec fn fill(buf: Seq<u8>, capacity: nat, chunks: Seq<Seq<u8>>) -> Seq<u8>
    decreases chunks.len(),
{
    if chunks.len() == 0 {
        buf
    } else if buf.len() + chunks[0].len() > capacity {
        buf
    } else {
        fill(buf + chunks[0], capacity, chunks.drop_first())
    }
}

impl Script {
    /// The step that writes nothing.
    pub open spec fn nothing() -> Script {
        Script { chunks: Seq::<Seq<u8>>::empty(), failure: None }
    }

    /// The step that appends `bytes` in one piece.
    pub open spec fn chunk(bytes: Seq<u8>) -> Script {
        Script { chunks: seq![bytes], failure: None }
    }

    /// The step that writes nothing and ends in `error`.
    pub open spec fn fail(error: Error) -> Script {
        Script { chunks: Seq::<Seq<u8>>::empty(), failure: Some(error) }
    }

    /// This step and then `next`, which is not reached if this one fails.
    pub open spec fn followed_by(self, next: Script) -> Script {
        if self.failure is Some {
            self
        } else {
            Script { chunks: self.chunks + next.chunks, failure: next.failure }
        }
    }

    /// Everything the step writes when there is room for it.
    pub open spec fn bytes(self) -> Seq<u8> {
        flat(self.chunks)
    }

    /// What the buffer holds after the step.
    pub open spec fn leaves(self, buf: Seq<u8>, capacity: nat) -> Seq<u8> {
        fill(buf, capacity, self.chunks)
    }

    /// How the step ends on a buffer that holds `len` bytes: a lack of room is met before the
    /// step's own failure, since that comes after its chunks.
    pub open spec fn verdict(self, len: nat, capacity: nat) -> Result<(), Error> {
        if len + self.bytes().len() > capacity {
            Err(Error::BufferFull)
        } else {
            match self.failure {
                Some(error) => Err(error),
                None => Ok(()),
            }
        }
    }
}

pub proof fn lemma_flat_concat(a: Seq<Seq<u8>>, b: Seq<Seq<u8>>)
    ensures
        flat(a + b) == flat(a) + flat(b),
    decreases a.len(),
{
    if a.len() == 0 {
        assert(a + b =~= b);
        assert(flat(a) + flat(b) =~= flat(b));
    } else {
        assert((a + b).drop_first() =~= a.drop_first() + b);
        lemma_flat_concat(a.drop_first(), b);
        assert(flat(a + b) =~= flat(a) + flat(b));
    }
}

pub proof fn lemma_flat_one(bytes: Seq<u8>)
    ensures
        flat(seq![bytes]) == bytes,
{
    let one = seq![bytes];
    assert(one.drop_first() =~= Seq::<Seq<u8>>::empty());
    assert(flat(one.drop_first()) =~= Seq::<u8>::empty());
    assert(flat(one) == one[0] + flat(one.drop_first()));
    assert(flat(one) =~= bytes);
}

/// One chunk alone is appended whole when there is room for it, and not at all otherwise.
pub proof fn lemma_chunk(bytes: Seq<u8>, buf: Seq<u8>, capacity: nat)
    ensures
        Script::chunk(bytes).bytes() == bytes,
        Script::chunk(bytes).leaves(buf, capacity) == if buf.len() + bytes.len() <= capacity {
            buf + bytes
        } else {
            buf
        },
        Script::chunk(bytes).verdict(buf.len(), capacity) == if buf.len() + bytes.len()
            <= capacity {
            Ok::<(), Error>(())
        } else {
            Err::<(), Error>(Error::BufferFull)
        },
{
    lemma_flat_one(bytes);
    reveal_with_fuel(fill, 2);
}

/// Appending never takes the buffer beyond its capacity, and never loses what was there.
pub proof fn lemma_fill_bounds(buf: Seq<u8>, capacity: nat, chunks: Seq<Seq<u8>>)
    requires
        buf.len() <= capacity,
    ensures
        fill(buf, capacity, chunks).len() <= capacity,
        buf.is_prefix_of(fill(buf, capacity, chunks)),
        fill(buf, capacity, chunks).is_prefix_of(buf + flat(chunks)),
    decreases chunks.len(),
{
    if chunks.len() == 0 {
        assert(buf + flat(chunks) =~= buf);
    } else if buf.len() + chunks[0].len() > capacity {
    } else {
        lemma_fill_bounds(buf + chunks[0], capacity, chunks.drop_first());
        assert(buf + flat(chunks) =~= (buf + chunks[0]) + flat(chunks.drop_first()));
    }
}

/// With room for all of them, the chunks arrive in full.
pub proof fn lemma_fill_fits(buf: Seq<u8>, capacity: nat, chunks: Seq<Seq<u8>>)
    requires
        buf.len() + flat(chunks).len() <= capacity,
    ensures
        fill(buf, capacity, chunks) == buf + flat(chunks),
    decreases chunks.len(),
{
    if chunks.len() == 0 {
        assert(buf + flat(chunks) =~= buf);
    } else {
        lemma_fill_fits(buf + chunks[0], capacity, chunks.drop_first());
        assert(buf + flat(chunks) =~= (buf + chunks[0]) + flat(chunks.drop_first()));
    }
}

/// Chunks that follow others are appended to what the others left, unless those did not fit.
pub proof fn lemma_fill_concat(buf: Seq<u8>, capacity: nat, a: Seq<Seq<u8>>, b: Seq<Seq<u8>>)
    ensures
        fill(buf, capacity, a + b) == if buf.len() + flat(a).len() <= capacity {
            fill(fill(buf, capacity, a), capacity, b)
        } else {
            fill(buf, capacity, a)
        },
    decreases a.len(),
{
    if a.len() == 0 {
        assert(a + b =~= b);
    } else {
        assert((a + b).drop_first() =~= a.drop_first() + b);
        assert((a + b)[0] == a[0]);
        if buf.len() + a[0].len() > capacity {
        } else {
            lemma_fill_concat(buf + a[0], capacity, a.drop_first(), b);
        }
    }
}

/// A step that comes after another adds its bytes behind the other's, or none.
pub proof fn lemma_followed_by_bytes(first: Script, next: Script)
    ensures
        first.failure is None ==> first.followed_by(next).bytes() == first.bytes() + next.bytes(),
        first.failure is Some ==> first.followed_by(next).bytes() == first.bytes(),
{
    lemma_flat_concat(first.chunks, next.chunks);
}

/// Running two steps one after the other is running their composition: when the first step
/// ends well the second takes over where it stopped, and when it fails the second is not run.
pub proof fn lemma_followed_by(first: Script, next: Script, buf: Seq<u8>, capacity: nat)
    ensures
        first.verdict(buf.len(), capacity) is Ok ==> {
            &&& first.leaves(buf, capacity) == buf + first.bytes()
            &&& first.followed_by(next).leaves(buf, capacity) == next.leaves(
                first.leaves(buf, capacity),
                capacity,
            )
            &&& first.followed_by(next).verdict(buf.len(), capacity) == next.verdict(
                first.leaves(buf, capacity).len(),
                capacity,
            )
        },
        first.verdict(buf.len(), capacity) is Err ==> {
            &&& first.followed_by(next).leaves(buf, capacity) == first.leaves(buf, capacity)
            &&& first.followed_by(next).verdict(buf.len(), capacity) == first.verdict(buf.len(), capacity)
        },
{
    lemma_flat_concat(first.chunks, next.chunks);
    lemma_fill_concat(buf, capacity, first.chunks, next.chunks);
    if first.verdict(buf.len(), capacity) is Ok {
        lemma_fill_fits(buf, capacity, first.chunks);
    }
}

} // verus!
