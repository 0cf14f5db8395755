use crate::ser::Error;
use vstd::prelude::*;

verus! {

/// `Vec::try_reserve_exact`: room for `additional` more bytes is set aside if the allocator
/// has it, and the contents stay as they are either way.
#[verifier::external_body]
fn set_aside(bytes: &mut Vec<u8>, additional: usize)
    ensures
        final(bytes)@ == old(bytes)@,
{
    let _ = bytes.try_reserve_exact(additional);
}

/// An append-only byte store whose capacity is fixed when it is made.
///
/// An append either stores all of its bytes or none of them. The room for all of them is
/// asked for once, when the buffer is made.
pub struct BoundedBuffer {
    bytes: Vec<u8>,
    capacity: usize,
}

impl View for BoundedBuffer {
    type V = Seq<u8>;

    closed spec fn view(&self) -> Seq<u8> {
        self.bytes@
    }
}

impl BoundedBuffer {
    /// The most bytes that the buffer will ever hold.
    pub closed spec fn spec_capacity(&self) -> nat {
        self.capacity as nat
    }

    /// The stored bytes never outnumber the capacity.
    pub open spec fn wf(&self) -> bool {
        self@.len() <= self.spec_capacity()
    }

    /// An empty buffer that holds up to `capacity` bytes.
    pub fn new(capacity: usize) -> (b: Self)
        ensures
            b.wf(),
            b@ == Seq::<u8>::empty(),
            b.spec_capacity() == capacity,
    {
        let mut bytes: Vec<u8> = Vec::new();
        set_aside(&mut bytes, capacity);
        BoundedBuffer { bytes, capacity }
    }

    pub fn capacity(&self) -> (c: usize)
        ensures
            c == self.spec_capacity(),
    {
        self.capacity
    }

    pub fn len(&self) -> (n: usize)
        ensures
            n == self@.len(),
    {
        self.bytes.len()
    }

    /// Appends one byte, or leaves the buffer as it was when it is full.
    pub fn push(&mut self, byte: u8) -> (r: Result<(), Error>)
        requires
            old(self).wf(),
        ensures
            final(self).wf(),
            final(self).spec_capacity() == old(self).spec_capacity(),
            old(self)@.len() < old(self).spec_capacity() ==> r == Ok::<(), Error>(()) && final(self)@
                == old(self)@.push(byte),
            old(self)@.len() >= old(self).spec_capacity() ==> r == Err::<(), Error>(Error::BufferFull)
                && final(self)@ == old(self)@,
    {
        if self.bytes.len() < self.capacity {
            self.bytes.push(byte);
            Ok(())
        } else {
            Err(Error::BufferFull)
        }
    }

    /// Appends all of `other`, or leaves the buffer as it was when they do not all fit.
    pub fn extend_from_slice(&mut self, other: &[u8]) -> (r: Result<(), Error>)
        requires
            old(self).wf(),
        ensures
            final(self).wf(),
            final(self).spec_capacity() == old(self).spec_capacity(),
            old(self)@.len() + other@.len() <= old(self).spec_capacity() ==> r == Ok::<(), Error>(())
                && final(self)@ == old(self)@ + other@,
            old(self)@.len() + other@.len() > old(self).spec_capacity() ==> r == Err::<(), Error>(
                Error::BufferFull,
            ) && final(self)@ == old(self)@,
    {
        if other.len() > self.capacity - self.bytes.len() {
            Err(Error::BufferFull)
        } else {
            self.bytes.extend_from_slice(other);
            Ok(())
        }
    }

    pub fn as_slice(&self) -> (s: &[u8])
        ensures
            s@ == self@,
    {
        self.bytes.as_slice()
    }

    pub fn into_vec(self) -> (v: Vec<u8>)
        ensures
            v@ == self@,
    {
        self.bytes
    }
}

} // verus!
