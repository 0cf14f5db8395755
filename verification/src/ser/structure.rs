//! Encoding the fields of a structure.

use crate::script::Script;
use crate::ser::{string_script, Error, Serializer};
use crate::value::{field_script, key_script, separator_script, Value};
use vstd::prelude::*;

verus! {

/// The state of a structure that is being written: whether a field has gone out yet.
///
/// It lives between the opening brace, which `Serializer::serialize_struct` writes, and the
/// closing one, which `end` writes. The serializer is handed to each call, so that one writer
/// is at work at a time.
pub struct SerializeStruct {
    first: bool,
}

impl SerializeStruct {
    /// Whether no field has been announced yet.
    pub closed spec fn is_first(&self) -> bool {
        self.first
    }

    pub(crate) fn new() -> (s: Self)
        ensures
            s.is_first(),
    {
        SerializeStruct { first: true }
    }

    /// Announces the next field: writes the comma that parts it from the one before, if there
    /// is one, then its name as a string and a colon. The caller writes the value next.
    pub fn begin_field(&mut self, ser: &mut Serializer, key: &str) -> (r: Result<(), Error>)
        requires
            old(ser).wf(),
        ensures
            final(ser).ran(*old(ser), key_script(old(self).is_first(), key@)),
            r == old(ser).verdict(key_script(old(self).is_first(), key@)),
            !final(self).is_first(),
    {
        let ghost start = *ser;
        let ghost separator = separator_script(self.first);
        let ghost name = string_script(key@);
        let ghost colon = Script::chunk(seq![58u8]);
        if !self.first {
            let parted = ser.serialize_separator();
            if parted.is_err() {
                proof {
                    Serializer::lemma_two_steps(start, *ser, *ser, separator, name);
                    Serializer::lemma_two_steps(
                        start,
                        *ser,
                        *ser,
                        separator.followed_by(name),
                        colon,
                    );
                }
                return parted;
            }
        }
        self.first = false;
        let ghost parted = *ser;
        let named = ser.serialize_str(key);
        let ghost after_name = *ser;
        proof {
            Serializer::lemma_two_steps(start, parted, after_name, separator, name);
        }
        if named.is_err() {
            proof {
                Serializer::lemma_two_steps(
                    start,
                    after_name,
                    after_name,
                    separator.followed_by(name),
                    colon,
                );
            }
            return named;
        }
        let r = ser.serialize_mark(58);
        proof {
            Serializer::lemma_two_steps(start, after_name, *ser, separator.followed_by(name), colon);
        }
        r
    }

    /// Writes the next field, behind a comma unless it is the first.
    pub fn serialize_field(&mut self, ser: &mut Serializer, key: &str, value: &Value) -> (r:
        Result<(), Error>)
        requires
            old(ser).wf(),
        ensures
            final(ser).ran(*old(ser), field_script(old(self).is_first(), key@, *value)),
            r == old(ser).verdict(field_script(old(self).is_first(), key@, *value)),
            !final(self).is_first(),
        decreases value, 1nat,
    {
        let ghost start = *ser;
        let ghost announced = key_script(self.first, key@);
        let begun = self.begin_field(ser, key);
        let ghost middle = *ser;
        if begun.is_err() {
            proof {
                Serializer::lemma_two_steps(start, middle, middle, announced, value.script());
            }
            return begun;
        }
        let written = value.serialize(ser);
        proof {
            Serializer::lemma_two_steps(start, middle, *ser, announced, value.script());
        }
        written
    }

    /// Closes the structure with its brace.
    pub fn end(self, ser: &mut Serializer) -> (r: Result<(), Error>)
        requires
            old(ser).wf(),
        ensures
            final(ser).ran(*old(ser), Script::chunk(seq![125u8])),
            r == old(ser).verdict(Script::chunk(seq![125u8])),
    {
        ser.serialize_mark(125)
    }
}

} // verus!
