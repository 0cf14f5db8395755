//! The values that can be encoded, and what their encoding is.

use crate::number::{decimal, signed_decimal};
use crate::script::Script;
use crate::ser::sequence::SerializeSeq;
use crate::ser::structure::SerializeStruct;
use crate::ser::{bool_text, float_script, null_text, string_script, Error, Serializer};
use vstd::prelude::*;

verus! {

/// The shapes of values that the encoder knows of and does not write.
#[derive(Debug, Clone, Copy, PartialEq, Eq, Structural)]
pub enum Shape {
    Bytes,
    Unit,
    UnitStruct,
    NewtypeStruct,
    NewtypeVariant,
    TupleStruct,
    TupleVariant,
    Mapping,
    StructVariant,
    Display,
}

/// A named field of a structure.
#[derive(Debug)]
pub struct Field {
    pub name: String,
    pub value: Value,
}

/// A value, by the shape under which it asks to be encoded.
#[derive(Debug)]
pub enum Value {
    Bool(bool),
    I8(i8),
    I16(i16),
    I32(i32),
    I64(i64),
    U8(u8),
    U16(u16),
    U32(u32),
    U64(u64),
    /// A floating-point number, as the decimal text that stands for it.
    Float(String),
    Char(char),
    Str(String),
    /// An optional value that is not there.
    Absent,
    /// An optional value that is there.
    Present(Box<Value>),
    /// A variant without payload, by its position in the enumeration and its label.
    UnitVariant { index: u32, label: String },
    Sequence(Vec<Value>),
    Tuple(Vec<Value>),
    Struct(Vec<Field>),
    /// A value of a shape that is not written.
    Other(Shape),
}

/// Writing the comma that parts an element or a field from the one before it.
pub open spec fn separator_script(first: bool) -> Script {
    if first {
        Script::nothing()
    } else {
        Script::chunk(seq![44u8])
    }
}

/// Writing one element of a sequence.
pub open spec fn element_script(first: bool, value: Value) -> Script
    decreases value, 1nat,
{
    separator_script(first).followed_by(value.script())
}

/// Writing the first `n` elements of a sequence.
pub open spec fn elements_script(items: Seq<Value>, n: nat) -> Script
    decreases items, n,
{
    if n == 0 || n > items.len() {
        Script::nothing()
    } else {
        elements_script(items, (n - 1) as nat).followed_by(element_script(n == 1, items[n - 1]))
    }
}

/// Writing the name of a field and the colon behind it.
pub open spec fn key_script(first: bool, name: Seq<char>) -> Script {
    separator_script(first).followed_by(string_script(name)).followed_by(
        Script::chunk(seq![58u8]),
    )
}

/// Writing one field of a structure.
pub open spec fn field_script(first: bool, name: Seq<char>, value: Value) -> Script
    decreases value, 1nat,
{
    key_script(first, name).followed_by(value.script())
}

/// Writing the first `n` fields of a structure.
pub open spec fn fields_script(fields: Seq<Field>, n: nat) -> Script
    decreases fields, n,
{
    if n == 0 || n > fields.len() {
        Script::nothing()
    } else {
        fields_script(fields, (n - 1) as nat).followed_by(
            field_script(n == 1, fields[n - 1].name@, fields[n - 1].value),
        )
    }
}

/// Writing a sequence: its elements between brackets.
pub open spec fn sequence_script(items: Seq<Value>) -> Script
    decreases items, items.len() + 1,
{
    Script::chunk(seq![91u8]).followed_by(elements_script(items, items.len())).followed_by(
        Script::chunk(seq![93u8]),
    )
}

/// Writing a structure: its fields between braces.
pub open spec fn struct_script(fields: Seq<Field>) -> Script
    decreases fields, fields.len() + 1,
{
    Script::chunk(seq![123u8]).followed_by(fields_script(fields, fields.len())).followed_by(
        Script::chunk(seq![125u8]),
    )
}

impl Value {
    /// Writing this value.
    pub open spec fn script(self) -> Script
        decreases self, 0nat,
    {
        match self {
            Value::Bool(v) => Script::chunk(bool_text(v)),
            Value::I8(v) => Script::chunk(signed_decimal(v as int)),
            Value::I16(v) => Script::chunk(signed_decimal(v as int)),
            Value::I32(v) => Script::chunk(signed_decimal(v as int)),
            Value::I64(v) => Script::chunk(signed_decimal(v as int)),
            Value::U8(v) => Script::chunk(decimal(v as nat)),
            Value::U16(v) => Script::chunk(decimal(v as nat)),
            Value::U32(v) => Script::chunk(decimal(v as nat)),
            Value::U64(v) => Script::chunk(decimal(v as nat)),
            Value::Float(text) => float_script(text@),
            Value::Char(c) => string_script(seq![c]),
            Value::Str(s) => string_script(s@),
            Value::Absent => Script::chunk(null_text()),
            Value::Present(inner) => inner.script(),
            Value::UnitVariant { index, label } => string_script(label@),
            Value::Sequence(items) => sequence_script(items@),
            Value::Tuple(items) => sequence_script(items@),
            Value::Struct(fields) => struct_script(fields@),
            Value::Other(_) => Script::fail(Error::Unsupported),
        }
    }

    /// Writes this value: the one scalar call that its shape asks for, or the calls that
    /// describe its elements or fields between opening and closing marks.
    pub fn serialize(&self, ser: &mut Serializer) -> (r: Result<(), Error>)
        requires
            old(ser).wf(),
        ensures
            final(ser).ran(*old(ser), self.script()),
            r == old(ser).verdict(self.script()),
        decreases self, 0nat,
    {
        match self {
            Value::Bool(v) => ser.serialize_bool(*v),
            Value::I8(v) => ser.serialize_i8(*v),
            Value::I16(v) => ser.serialize_i16(*v),
            Value::I32(v) => ser.serialize_i32(*v),
            Value::I64(v) => ser.serialize_i64(*v),
            Value::U8(v) => ser.serialize_u8(*v),
            Value::U16(v) => ser.serialize_u16(*v),
            Value::U32(v) => ser.serialize_u32(*v),
            Value::U64(v) => ser.serialize_u64(*v),
            Value::Float(text) => ser.serialize_float_text(text.as_str()),
            Value::Char(c) => ser.serialize_char(*c),
            Value::Str(s) => ser.serialize_str(s.as_str()),
            Value::Absent => ser.serialize_none(),
            Value::Present(inner) => ser.serialize_some(inner),
            Value::UnitVariant { index, label } => ser.serialize_unit_variant(
                "",
                *index,
                label.as_str(),
            ),
            Value::Sequence(items) => serialize_sequence(ser, items, false),
            Value::Tuple(items) => serialize_sequence(ser, items, true),
            Value::Struct(fields) => serialize_structure(ser, fields),
            Value::Other(shape) => ser.serialize_other(*shape),
        }
    }
}

/// Writes a sequence or a tuple: the opening bracket, the elements, the closing bracket.
fn serialize_sequence(ser: &mut Serializer, items: &Vec<Value>, as_tuple: bool) -> (r: Result<
    (),
    Error,
>)
    requires
        old(ser).wf(),
    ensures
        final(ser).ran(*old(ser), sequence_script(items@)),
        r == old(ser).verdict(sequence_script(items@)),
    decreases items@, items@.len() + 1,
{
    let ghost start = *ser;
    let ghost open = Script::chunk(seq![91u8]);
    let ghost inside = elements_script(items@, items@.len());
    let ghost close = Script::chunk(seq![93u8]);
    let opened = if as_tuple {
        ser.serialize_tuple(items.len())
    } else {
        ser.serialize_seq(Some(items.len()))
    };
    let ghost after_open = *ser;
    let elements = match opened {
        Ok(elements) => elements,
        Err(error) => {
            proof {
                Serializer::lemma_two_steps(start, after_open, after_open, open, inside);
                Serializer::lemma_two_steps(
                    start,
                    after_open,
                    after_open,
                    open.followed_by(inside),
                    close,
                );
            }
            return Err(error);
        },
    };
    let written = serialize_elements(ser, elements, items);
    let ghost filled = *ser;
    proof {
        Serializer::lemma_two_steps(start, after_open, filled, open, inside);
    }
    let elements = match written {
        Ok(elements) => elements,
        Err(error) => {
            proof {
                Serializer::lemma_two_steps(start, filled, filled, open.followed_by(inside), close);
            }
            return Err(error);
        },
    };
    let closed = elements.end(ser);
    proof {
        Serializer::lemma_two_steps(start, filled, *ser, open.followed_by(inside), close);
    }
    closed
}

/// Writes a structure: the opening brace, the fields, the closing brace.
fn serialize_structure(ser: &mut Serializer, fields: &Vec<Field>) -> (r: Result<(), Error>)
    requires
        old(ser).wf(),
    ensures
        final(ser).ran(*old(ser), struct_script(fields@)),
        r == old(ser).verdict(struct_script(fields@)),
    decreases fields@, fields@.len() + 1,
{
    let ghost start = *ser;
    let ghost open = Script::chunk(seq![123u8]);
    let ghost inside = fields_script(fields@, fields@.len());
    let ghost close = Script::chunk(seq![125u8]);
    let opened = ser.serialize_struct("", fields.len());
    let ghost after_open = *ser;
    let state = match opened {
        Ok(state) => state,
        Err(error) => {
            proof {
                Serializer::lemma_two_steps(start, after_open, after_open, open, inside);
                Serializer::lemma_two_steps(
                    start,
                    after_open,
                    after_open,
                    open.followed_by(inside),
                    close,
                );
            }
            return Err(error);
        },
    };
    let written = serialize_fields(ser, state, fields);
    let ghost filled = *ser;
    proof {
        Serializer::lemma_two_steps(start, after_open, filled, open, inside);
    }
    let state = match written {
        Ok(state) => state,
        Err(error) => {
            proof {
                Serializer::lemma_two_steps(start, filled, filled, open.followed_by(inside), close);
            }
            return Err(error);
        },
    };
    let closed = state.end(ser);
    proof {
        Serializer::lemma_two_steps(start, filled, *ser, open.followed_by(inside), close);
    }
    closed
}

/// Writes all elements of a sequence that was just opened, and hands the state back for
/// the closing bracket.
fn serialize_elements(ser: &mut Serializer, elements: SerializeSeq, items: &Vec<Value>) -> (r:
    Result<SerializeSeq, Error>)
    requires
        old(ser).wf(),
        elements.is_first(),
    ensures
        final(ser).ran(*old(ser), elements_script(items@, items@.len())),
        match r {
            Ok(_) => old(ser).verdict(elements_script(items@, items@.len())) is Ok,
            Err(error) => old(ser).verdict(elements_script(items@, items@.len())) == Err::<
                (),
                Error,
            >(error),
        },
    decreases items@, items@.len(),
{
    let ghost start = *ser;
    let mut elements = elements;
    let mut i: usize = 0;
    while i < items.len()
        invariant
            start == *old(ser),
            i <= items.len(),
            elements.is_first() == (i == 0),
            ser.ran(start, elements_script(items@, i as nat)),
            start.verdict(elements_script(items@, i as nat)) is Ok,
        decreases items.len() - i,
    {
        let ghost done = elements_script(items@, i as nat);
        let ghost before = *ser;
        let written = elements.serialize_element(ser, &items[i]);
        proof {
            Serializer::lemma_two_steps(
                start,
                before,
                *ser,
                done,
                element_script(i == 0, items@[i as int]),
            );
            assert(elements_script(items@, (i + 1) as nat) == done.followed_by(
                element_script(i == 0, items@[i as int]),
            ));
        }
        i = i + 1;
        if let Err(error) = written {
            proof {
                lemma_elements_stay_failed(items@, i as nat, items@.len(), start);
            }
            return Err(error);
        }
    }
    Ok(elements)
}

/// Writes all fields of a structure that was just opened, and hands the state back for the
/// closing brace.
fn serialize_fields(ser: &mut Serializer, state: SerializeStruct, fields: &Vec<Field>) -> (r:
    Result<SerializeStruct, Error>)
    requires
        old(ser).wf(),
        state.is_first(),
    ensures
        final(ser).ran(*old(ser), fields_script(fields@, fields@.len())),
        match r {
            Ok(_) => old(ser).verdict(fields_script(fields@, fields@.len())) is Ok,
            Err(error) => old(ser).verdict(fields_script(fields@, fields@.len())) == Err::<
                (),
                Error,
            >(error),
        },
    decreases fields@, fields@.len(),
{
    let ghost start = *ser;
    let mut state = state;
    let mut i: usize = 0;
    while i < fields.len()
        invariant
            start == *old(ser),
            i <= fields.len(),
            state.is_first() == (i == 0),
            ser.ran(start, fields_script(fields@, i as nat)),
            start.verdict(fields_script(fields@, i as nat)) is Ok,
        decreases fields.len() - i,
    {
        let ghost done = fields_script(fields@, i as nat);
        let ghost before = *ser;
        let field = &fields[i];
        let written = state.serialize_field(ser, field.name.as_str(), &field.value);
        proof {
            Serializer::lemma_two_steps(
                start,
                before,
                *ser,
                done,
                field_script(i == 0, field.name@, field.value),
            );
            assert(fields_script(fields@, (i + 1) as nat) == done.followed_by(
                field_script(i == 0, field.name@, field.value),
            ));
        }
        i = i + 1;
        if let Err(error) = written {
            proof {
                lemma_fields_stay_failed(fields@, i as nat, fields@.len(), start);
            }
            return Err(error);
        }
    }
    Ok(state)
}

/// Once the first `n` elements have failed, so have the first `m`, in the same way.
proof fn lemma_elements_stay_failed(items: Seq<Value>, n: nat, m: nat, start: Serializer)
    requires
        n <= m <= items.len(),
        start.verdict(elements_script(items, n)) is Err,
    ensures
        start.verdict(elements_script(items, m)) == start.verdict(elements_script(items, n)),
        elements_script(items, m).leaves(start@, start.spec_capacity()) == elements_script(
            items,
            n,
        ).leaves(start@, start.spec_capacity()),
    decreases m,
{
    if m > n {
        lemma_elements_stay_failed(items, n, (m - 1) as nat, start);
        crate::script::lemma_followed_by(
            elements_script(items, (m - 1) as nat),
            element_script(m == 1, items[m - 1]),
            start@,
            start.spec_capacity(),
        );
    }
}

/// Once the first `n` fields have failed, so have the first `m`, in the same way.
proof fn lemma_fields_stay_failed(fields: Seq<Field>, n: nat, m: nat, start: Serializer)
    requires
        n <= m <= fields.len(),
        start.verdict(fields_script(fields, n)) is Err,
    ensures
        start.verdict(fields_script(fields, m)) == start.verdict(fields_script(fields, n)),
        fields_script(fields, m).leaves(start@, start.spec_capacity()) == fields_script(
            fields,
            n,
        ).leaves(start@, start.spec_capacity()),
    decreases m,
{
    if m > n {
        lemma_fields_stay_failed(fields, n, (m - 1) as nat, start);
        crate::script::lemma_followed_by(
            fields_script(fields, (m - 1) as nat),
            field_script(m == 1, fields[m - 1].name@, fields[m - 1].value),
            start@,
            start.spec_capacity(),
        );
    }
}

} // verus!
