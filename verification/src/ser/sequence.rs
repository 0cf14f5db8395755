//! Encoding the elements of a sequence or a tuple.

use crate::script::Script;
use crate::ser::{Error, Serializer};
use crate::value::{element_script, separator_script, Value};
use vstd::prelude::*;

verus! {

/// The state of a sequence that is being written: whether an element has gone out yet.
///
/// It lives between the opening bracket, which `Serializer::serialize_seq` writes, and the
/// closing one, which `end` writes. The serializer is handed to each call, so that one writer
/// is at work at a time.
pub struct SerializeSeq {
    first: bool,
}

impl SerializeSeq {
    /// Whether no element has been announced yet.
    pub closed spec fn is_first(&self) -> bool {
        self.first
    }

    pub(crate) fn new() -> (s: Self)
        ensures
            s.is_first(),
    {
        SerializeSeq { first: true }
    }

    /// Announces the next element: writes the comma that parts it from the one before, if
    /// there is one. The caller writes the element itself next.
    pub fn begin_element(&mut self, ser: &mut Serializer) -> (r: Result<(), Error>)
        requires
            old(ser).wf(),
        ensures
            final(ser).ran(*old(ser), separator_script(old(self).is_first())),
            r == old(ser).verdict(separator_script(old(self).is_first())),
            !final(self).is_first(),
    {
        if !self.first {
            let r = ser.serialize_separator();
            if r.is_err() {
                return r;
            }
        }
        self.first = false;
        Ok(())
    }

    /// Writes the next element, behind a comma unless it is the first.
    pub fn serialize_element(&mut self, ser: &mut Serializer, value: &Value) -> (r: Result<
        (),
        Error,
    >)
        requires
            old(ser).wf(),
        ensures
            final(ser).ran(*old(ser), element_script(old(self).is_first(), *value)),
            r == old(ser).verdict(element_script(old(self).is_first(), *value)),
            !final(self).is_first(),
        decreases value, 1nat,
    {
        let ghost start = *ser;
        let ghost separator = separator_script(self.first);
        let parted = self.begin_element(ser);
        let ghost middle = *ser;
        if parted.is_err() {
            proof {
                Serializer::lemma_two_steps(start, middle, middle, separator, value.script());
            }
            return parted;
        }
        let written = value.serialize(ser);
        proof {
            Serializer::lemma_two_steps(start, middle, *ser, separator, value.script());
        }
        written
    }

    /// Closes the sequence with its bracket.
    pub fn end(self, ser: &mut Serializer) -> (r: Result<(), Error>)
        requires
            old(ser).wf(),
        ensures
            final(ser).ran(*old(ser), Script::chunk(seq![93u8])),
            r == old(ser).verdict(Script::chunk(seq![93u8])),
    {
        ser.serialize_mark(93)
    }
}

} // verus!
