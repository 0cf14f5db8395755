//! Encoding values as JSON text into a buffer of fixed capacity.

pub mod sequence;
pub mod structure;

use crate::buffer::BoundedBuffer;
use crate::number::{
    decimal, signed_decimal, write_i16, write_i32, write_i64, write_i8, write_u16, write_u32,
    write_u64, write_u8,
};
use crate::scratch::{scratch_as_str, scratch_new, scratch_push_str};
use crate::grammar::{lemma_outcome, lemma_script_utf8};
use crate::script::{lemma_chunk, lemma_fill_fits, lemma_followed_by, Script};
use crate::ser::sequence::SerializeSeq;
use crate::ser::structure::SerializeStruct;
use crate::value::{Shape, Value};
use vstd::prelude::*;
use vstd::slice::slice_subrange;
use vstd::utf8::{encode_utf8, valid_utf8};

verus! {

/// Everything that can go wrong while encoding.
#[derive(Debug, Clone, Copy, PartialEq, Eq, Structural)]
pub enum Error {
    /// The output would not fit into the buffer.
    BufferFull,
    /// A number's decimal text did not fit into the scratch space kept for it.
    FormatError,
    /// The value has a shape that this encoder does not write.
    Unsupported,
}

/// The most bytes that the decimal text of a floating-point number may take.
pub const FLOAT_TEXT_MAX: usize = 41;

/// The text `true` or `false`.
pub open spec fn bool_text(v: bool) -> Seq<u8> {
    if v {
        seq![116u8, 114u8, 117u8, 101u8]
    } else {
        seq![102u8, 97u8, 108u8, 115u8, 101u8]
    }
}

/// The text `null`.
pub open spec fn null_text() -> Seq<u8> {
    seq![110u8, 117u8, 108u8, 108u8]
}

/// Writing a JSON string: the opening quote, the characters as UTF-8 with nothing escaped,
/// and the closing quote, in three appends.
pub open spec fn string_script(s: Seq<char>) -> Script {
    Script::chunk(seq![34u8]).followed_by(Script::chunk(encode_utf8(s))).followed_by(
        Script::chunk(seq![34u8]),
    )
}

/// Writing a floating-point number that is given as its decimal text: the text in one append,
/// or a failure when it is longer than the scratch space.
pub open spec fn float_script(text: Seq<char>) -> Script {
    if encode_utf8(text).len() <= FLOAT_TEXT_MAX {
        Script::chunk(encode_utf8(text))
    } else {
        Script::fail(Error::FormatError)
    }
}

/// `char::encode_utf8`: the character as a string of its own, written into `buf`.
#[verifier::external_body]
fn encode_char<'a>(c: char, buf: &'a mut [u8; 4]) -> (s: &'a str)
    ensures
        s@ == seq![c],
{
    c.encode_utf8(buf)
}

/// Writes JSON text into a buffer of fixed capacity, one value at a time.
pub struct Serializer {
    buf: BoundedBuffer,
}

impl View for Serializer {
    type V = Seq<u8>;

    closed spec fn view(&self) -> Seq<u8> {
        self.buf@
    }
}

impl Serializer {
    /// The most bytes that the output will ever hold.
    pub closed spec fn spec_capacity(&self) -> nat {
        self.buf.spec_capacity()
    }

    /// The output never outgrows the capacity.
    pub open spec fn wf(&self) -> bool {
        self@.len() <= self.spec_capacity()
    }

    /// Whether this is `before` after a step that follows `script`.
    pub open spec fn ran(self, before: Serializer, script: Script) -> bool {
        &&& self.wf()
        &&& self.spec_capacity() == before.spec_capacity()
        &&& self@ == script.leaves(before@, before.spec_capacity())
    }

    /// How a step that follows `script` ends when it starts here.
    pub open spec fn verdict(self, script: Script) -> Result<(), Error> {
        script.verdict(self@.len(), self.spec_capacity())
    }

    /// Two steps in a row make one step of the two scripts in a row. `last` is where the
    /// second step ended, or where the first ended if that failed.
    pub proof fn lemma_two_steps(
        start: Serializer,
        middle: Serializer,
        last: Serializer,
        first: Script,
        next: Script,
    )
        requires
            middle.ran(start, first),
            start.verdict(first) is Ok ==> last.ran(middle, next),
            start.verdict(first) is Err ==> last == middle,
        ensures
            last.ran(start, first.followed_by(next)),
            start.verdict(first.followed_by(next)) == if start.verdict(first) is Ok {
                middle.verdict(next)
            } else {
                start.verdict(first)
            },
    {
        lemma_followed_by(first, next, start@, start.spec_capacity());
    }

    /// A serializer with no output yet and room for `capacity` bytes.
    pub fn new(capacity: usize) -> (s: Self)
        ensures
            s.wf(),
            s@ == Seq::<u8>::empty(),
            s.spec_capacity() == capacity,
    {
        Serializer { buf: BoundedBuffer::new(capacity) }
    }

    /// Tests `wf`, for callers that are not verified.
    pub fn is_wf(&self) -> (ok: bool)
        ensures
            ok == self.wf(),
    {
        self.buf.len() <= self.buf.capacity()
    }

    /// The most bytes that the output will ever hold.
    pub fn capacity(&self) -> (c: usize)
        ensures
            c == self.spec_capacity(),
    {
        self.buf.capacity()
    }

    /// How many bytes the output holds so far.
    pub fn len(&self) -> (n: usize)
        ensures
            n == self@.len(),
    {
        self.buf.len()
    }

    /// The output so far.
    pub fn as_slice(&self) -> (s: &[u8])
        ensures
            s@ == self@,
    {
        self.buf.as_slice()
    }

    /// Gives up the serializer for its output.
    pub fn into_vec(self) -> (v: Vec<u8>)
        ensures
            v@ == self@,
    {
        self.buf.into_vec()
    }

    /// Appends `bytes` in one piece.
    fn put(&mut self, bytes: &[u8]) -> (r: Result<(), Error>)
        requires
            old(self).wf(),
        ensures
            final(self).ran(*old(self), Script::chunk(bytes@)),
            r == old(self).verdict(Script::chunk(bytes@)),
    {
        proof {
            lemma_chunk(bytes@, self@, self.spec_capacity());
        }
        self.buf.extend_from_slice(bytes)
    }

    /// Writes one mark of punctuation.
    pub(crate) fn serialize_mark(&mut self, byte: u8) -> (r: Result<(), Error>)
        requires
            old(self).wf(),
        ensures
            final(self).ran(*old(self), Script::chunk(seq![byte])),
            r == old(self).verdict(Script::chunk(seq![byte])),
    {
        proof {
            lemma_chunk(seq![byte], self@, self.spec_capacity());
            assert(self@.push(byte) =~= self@ + seq![byte]);
        }
        self.buf.push(byte)
    }

    /// Writes `true` or `false`.
    pub fn serialize_bool(&mut self, v: bool) -> (r: Result<(), Error>)
        requires
            old(self).wf(),
        ensures
            final(self).ran(*old(self), Script::chunk(bool_text(v))),
            r == old(self).verdict(Script::chunk(bool_text(v))),
    {
        if v {
            let text: [u8; 4] = [116, 114, 117, 101];
            assert(text@ =~= bool_text(v));
            self.put(text.as_slice())
        } else {
            let text: [u8; 5] = [102, 97, 108, 115, 101];
            assert(text@ =~= bool_text(v));
            self.put(text.as_slice())
        }
    }

    /// Writes `null` for a value that is absent.
    pub fn serialize_none(&mut self) -> (r: Result<(), Error>)
        requires
            old(self).wf(),
        ensures
            final(self).ran(*old(self), Script::chunk(null_text())),
            r == old(self).verdict(Script::chunk(null_text())),
    {
        let text: [u8; 4] = [110, 117, 108, 108];
        assert(text@ =~= null_text());
        self.put(text.as_slice())
    }

    /// Writes `v` between quotes, with nothing escaped: a quote, a backslash or a control
    /// character in `v` goes out as it is.
    pub fn serialize_str(&mut self, v: &str) -> (r: Result<(), Error>)
        requires
            old(self).wf(),
        ensures
            final(self).ran(*old(self), string_script(v@)),
            r == old(self).verdict(string_script(v@)),
    {
        let ghost start = *self;
        let ghost quote = Script::chunk(seq![34u8]);
        let ghost body = Script::chunk(encode_utf8(v@));
        let opened = self.serialize_mark(34);
        let ghost after_quote = *self;
        if opened.is_err() {
            proof {
                Self::lemma_two_steps(start, after_quote, after_quote, quote, body);
                Self::lemma_two_steps(
                    start,
                    after_quote,
                    after_quote,
                    quote.followed_by(body),
                    quote,
                );
            }
            return opened;
        }
        let written = self.put(v.as_bytes());
        let ghost after_body = *self;
        proof {
            Self::lemma_two_steps(start, after_quote, after_body, quote, body);
        }
        if written.is_err() {
            proof {
                Self::lemma_two_steps(start, after_body, after_body, quote.followed_by(body), quote);
            }
            return written;
        }
        let closed = self.serialize_mark(34);
        proof {
            Self::lemma_two_steps(start, after_body, *self, quote.followed_by(body), quote);
        }
        closed
    }

    /// Writes a character as a string of its own.
    pub fn serialize_char(&mut self, v: char) -> (r: Result<(), Error>)
        requires
            old(self).wf(),
        ensures
            final(self).ran(*old(self), string_script(seq![v])),
            r == old(self).verdict(string_script(seq![v])),
    {
        let mut buf: [u8; 4] = [0; 4];
        self.serialize_str(encode_char(v, &mut buf))
    }

    /// Writes `v` in decimal, with a minus sign in front when it is negative.
    pub fn serialize_i8(&mut self, v: i8) -> (r: Result<(), Error>)
        requires
            old(self).wf(),
        ensures
            final(self).ran(*old(self), Script::chunk(signed_decimal(v as int))),
            r == old(self).verdict(Script::chunk(signed_decimal(v as int))),
    {
        let mut buf: [u8; 4] = [0; 4];
        let start: usize = write_i8(v, &mut buf);
        self.put(slice_subrange(buf.as_slice(), start, 4))
    }

    /// Writes `v` in decimal, with a minus sign in front when it is negative.
    pub fn serialize_i16(&mut self, v: i16) -> (r: Result<(), Error>)
        requires
            old(self).wf(),
        ensures
            final(self).ran(*old(self), Script::chunk(signed_decimal(v as int))),
            r == old(self).verdict(Script::chunk(signed_decimal(v as int))),
    {
        let mut buf: [u8; 6] = [0; 6];
        let start: usize = write_i16(v, &mut buf);
        self.put(slice_subrange(buf.as_slice(), start, 6))
    }

    /// Writes `v` in decimal, with a minus sign in front when it is negative.
    pub fn serialize_i32(&mut self, v: i32) -> (r: Result<(), Error>)
        requires
            old(self).wf(),
        ensures
            final(self).ran(*old(self), Script::chunk(signed_decimal(v as int))),
            r == old(self).verdict(Script::chunk(signed_decimal(v as int))),
    {
        let mut buf: [u8; 11] = [0; 11];
        let start: usize = write_i32(v, &mut buf);
        self.put(slice_subrange(buf.as_slice(), start, 11))
    }

    /// Writes `v` in decimal, with a minus sign in front when it is negative.
    pub fn serialize_i64(&mut self, v: i64) -> (r: Result<(), Error>)
        requires
            old(self).wf(),
        ensures
            final(self).ran(*old(self), Script::chunk(signed_decimal(v as int))),
            r == old(self).verdict(Script::chunk(signed_decimal(v as int))),
    {
        let mut buf: [u8; 20] = [0; 20];
        let start: usize = write_i64(v, &mut buf);
        self.put(slice_subrange(buf.as_slice(), start, 20))
    }

    /// Writes `v` in decimal.
    pub fn serialize_u8(&mut self, v: u8) -> (r: Result<(), Error>)
        requires
            old(self).wf(),
        ensures
            final(self).ran(*old(self), Script::chunk(decimal(v as nat))),
            r == old(self).verdict(Script::chunk(decimal(v as nat))),
    {
        let mut buf: [u8; 3] = [0; 3];
        let start: usize = write_u8(v, &mut buf);
        self.put(slice_subrange(buf.as_slice(), start, 3))
    }

    /// Writes `v` in decimal.
    pub fn serialize_u16(&mut self, v: u16) -> (r: Result<(), Error>)
        requires
            old(self).wf(),
        ensures
            final(self).ran(*old(self), Script::chunk(decimal(v as nat))),
            r == old(self).verdict(Script::chunk(decimal(v as nat))),
    {
        let mut buf: [u8; 5] = [0; 5];
        let start: usize = write_u16(v, &mut buf);
        self.put(slice_subrange(buf.as_slice(), start, 5))
    }

    /// Writes `v` in decimal.
    pub fn serialize_u32(&mut self, v: u32) -> (r: Result<(), Error>)
        requires
            old(self).wf(),
        ensures
            final(self).ran(*old(self), Script::chunk(decimal(v as nat))),
            r == old(self).verdict(Script::chunk(decimal(v as nat))),
    {
        let mut buf: [u8; 10] = [0; 10];
        let start: usize = write_u32(v, &mut buf);
        self.put(slice_subrange(buf.as_slice(), start, 10))
    }

    /// Writes `v` in decimal.
    pub fn serialize_u64(&mut self, v: u64) -> (r: Result<(), Error>)
        requires
            old(self).wf(),
        ensures
            final(self).ran(*old(self), Script::chunk(decimal(v as nat))),
            r == old(self).verdict(Script::chunk(decimal(v as nat))),
    {
        let mut buf: [u8; 20] = [0; 20];
        let start: usize = write_u64(v, &mut buf);
        self.put(slice_subrange(buf.as_slice(), start, 20))
    }

    /// Writes a floating-point number that is given as its decimal text.
    ///
    /// The text passes through a scratch space of `FLOAT_TEXT_MAX` bytes and goes out as it
    /// is; a longer text fails with `Error::FormatError` and writes nothing.
    pub fn serialize_float_text(&mut self, text: &str) -> (r: Result<(), Error>)
        requires
            old(self).wf(),
        ensures
            final(self).ran(*old(self), float_script(text@)),
            r == old(self).verdict(float_script(text@)),
    {
        let mut scratch = scratch_new();
        assert(encode_utf8(Seq::<char>::empty()).len() == 0);
        match scratch_push_str(&mut scratch, text) {
            Err(_) => Err(Error::FormatError),
            Ok(_) => {
                assert(Seq::<char>::empty() + text@ =~= text@);
                self.put(scratch_as_str(&scratch).as_bytes())
            },
        }
    }

    /// Writes a variant without payload as a string of its label; the name of the enumeration
    /// and the variant's position are not written.
    pub fn serialize_unit_variant(&mut self, name: &str, variant_index: u32, variant: &str) -> (r:
        Result<(), Error>)
        requires
            old(self).wf(),
        ensures
            final(self).ran(*old(self), string_script(variant@)),
            r == old(self).verdict(string_script(variant@)),
    {
        self.serialize_str(variant)
    }

    /// Writes the comma between two elements or two fields.
    pub(crate) fn serialize_separator(&mut self) -> (r: Result<(), Error>)
        requires
            old(self).wf(),
        ensures
            final(self).ran(*old(self), Script::chunk(seq![44u8])),
            r == old(self).verdict(Script::chunk(seq![44u8])),
    {
        self.serialize_mark(44)
    }

    /// Writes the wrapped value of an optional value that is present, with no mark around it.
    pub fn serialize_some(&mut self, value: &Value) -> (r: Result<(), Error>)
        requires
            old(self).wf(),
        ensures
            final(self).ran(*old(self), value.script()),
            r == old(self).verdict(value.script()),
        decreases value, 1nat,
    {
        value.serialize(self)
    }

    /// Opens a sequence with its bracket and hands out the state that writes its elements.
    /// The announced length plays no part.
    pub fn serialize_seq(&mut self, len: Option<usize>) -> (r: Result<SerializeSeq, Error>)
        requires
            old(self).wf(),
        ensures
            final(self).ran(*old(self), Script::chunk(seq![91u8])),
            match r {
                Ok(elements) => old(self).verdict(Script::chunk(seq![91u8])) is Ok
                    && elements.is_first(),
                Err(error) => old(self).verdict(Script::chunk(seq![91u8])) == Err::<(), Error>(
                    error,
                ),
            },
    {
        match self.serialize_mark(91) {
            Ok(_) => Ok(SerializeSeq::new()),
            Err(error) => Err(error),
        }
    }

    /// Opens a tuple, which is written as a sequence is.
    pub fn serialize_tuple(&mut self, len: usize) -> (r: Result<SerializeSeq, Error>)
        requires
            old(self).wf(),
        ensures
            final(self).ran(*old(self), Script::chunk(seq![91u8])),
            match r {
                Ok(elements) => old(self).verdict(Script::chunk(seq![91u8])) is Ok
                    && elements.is_first(),
                Err(error) => old(self).verdict(Script::chunk(seq![91u8])) == Err::<(), Error>(
                    error,
                ),
            },
    {
        self.serialize_seq(Some(len))
    }

    /// Opens a structure with its brace and hands out the state that writes its fields.
    /// Neither the structure's name nor the announced number of fields plays a part.
    pub fn serialize_struct(&mut self, name: &str, len: usize) -> (r: Result<
        SerializeStruct,
        Error,
    >)
        requires
            old(self).wf(),
        ensures
            final(self).ran(*old(self), Script::chunk(seq![123u8])),
            match r {
                Ok(fields) => old(self).verdict(Script::chunk(seq![123u8])) is Ok
                    && fields.is_first(),
                Err(error) => old(self).verdict(Script::chunk(seq![123u8])) == Err::<(), Error>(
                    error,
                ),
            },
    {
        match self.serialize_mark(123) {
            Ok(_) => Ok(SerializeStruct::new()),
            Err(error) => Err(error),
        }
    }

    /// Refuses a value of a shape that is not written, and writes nothing.
    pub fn serialize_other(&mut self, shape: Shape) -> (r: Result<(), Error>)
        requires
            old(self).wf(),
        ensures
            final(self).ran(*old(self), Script::fail(Error::Unsupported)),
            r == old(self).verdict(Script::fail(Error::Unsupported)),
            *final(self) == *old(self),
            r == Err::<(), Error>(Error::Unsupported),
    {
        Err(Error::Unsupported)
    }
}

/// What comes of encoding `value` into an empty buffer of `capacity` bytes: all that the
/// value writes, or the first error on the way.
pub open spec fn outcome(value: Value, capacity: nat) -> Result<Seq<u8>, Error> {
    match value.script().verdict(0, capacity) {
        Ok(_) => Ok(value.script().bytes()),
        Err(error) => Err(error),
    }
}

/// `String::from_utf8`: the string whose UTF-8 encoding the bytes are, if they are one.
#[verifier::external_body]
fn string_from_utf8(bytes: Vec<u8>) -> (r: Option<String>)
    ensures
        r is Some <==> valid_utf8(bytes@),
        r matches Some(text) ==> encode_utf8(text@) == bytes@,
{
    String::from_utf8(bytes).ok()
}

/// Encodes `value` as JSON into a byte vector that never holds more than `capacity` bytes.
///
/// A value that can be written comes out as its text when that fits, and fails with
/// `Error::BufferFull` when it does not; no part of a text that does not fit is handed out.
pub fn to_vec(value: &Value, capacity: usize) -> (r: Result<Vec<u8>, Error>)
    ensures
        match r {
            Ok(bytes) => outcome(*value, capacity as nat) == Ok::<Seq<u8>, Error>(bytes@),
            Err(error) => outcome(*value, capacity as nat) == Err::<Seq<u8>, Error>(error),
        },
        value.supported() && value.text().len() <= capacity ==> r is Ok && r->Ok_0@
            == value.text(),
        value.supported() && value.text().len() > capacity ==> r == Err::<Vec<u8>, Error>(
            Error::BufferFull,
        ),
        !value.supported() ==> r is Err,
{
    proof {
        lemma_outcome(*value, capacity as nat);
    }
    let mut ser = Serializer::new(capacity);
    match value.serialize(&mut ser) {
        Ok(_) => {
            proof {
                lemma_fill_fits(Seq::<u8>::empty(), capacity as nat, value.script().chunks);
                assert(Seq::<u8>::empty() + value.script().bytes() =~= value.script().bytes());
            }
            Ok(ser.into_vec())
        },
        Err(error) => Err(error),
    }
}

/// Encodes `value` as a string of JSON text that never takes more than `capacity` bytes.
///
/// The string holds what `to_vec` would hand out as bytes, which is always UTF-8.
pub fn to_string(value: &Value, capacity: usize) -> (r: Result<String, Error>)
    ensures
        match r {
            Ok(text) => outcome(*value, capacity as nat) == Ok::<Seq<u8>, Error>(
                encode_utf8(text@),
            ),
            Err(error) => outcome(*value, capacity as nat) == Err::<Seq<u8>, Error>(error),
        },
        value.supported() && value.text().len() <= capacity ==> r is Ok && encode_utf8(r->Ok_0@)
            == value.text(),
        value.supported() && value.text().len() > capacity ==> r == Err::<String, Error>(
            Error::BufferFull,
        ),
        !value.supported() ==> r is Err,
{
    proof {
        lemma_outcome(*value, capacity as nat);
    }
    match to_vec(value, capacity) {
        Ok(bytes) => {
            proof {
                lemma_script_utf8(*value);
            }
            match string_from_utf8(bytes) {
                Some(text) => Ok(text),
                None => Err(Error::FormatError),
            }
        },
        Err(error) => Err(error),
    }
}

} // verus!
