//! The JSON text of a value as the grammar gives it, and what holds of every encoding.

use crate::number::{decimal, lemma_decimal_canonical, signed_decimal};
use crate::script::{lemma_flat_one, lemma_followed_by_bytes, Script};
use crate::ser::{bool_text, null_text, outcome, string_script, Error, FLOAT_TEXT_MAX};
use crate::value::{
    element_script, elements_script, field_script, fields_script, key_script, separator_script,
    sequence_script, struct_script, Field, Value,
};
use vstd::prelude::*;
use vstd::utf8::{
    encode_scalar, encode_utf8, encode_utf8_valid_utf8, is_ascii_chars,
    is_ascii_chars_encode_utf8, valid_utf8, valid_utf8_concat,
};

verus! {

/// A JSON string: the characters as UTF-8 between two quotes, with nothing escaped.
pub open spec fn quoted(s: Seq<char>) -> Seq<u8> {
    seq![34u8] + encode_utf8(s) + seq![34u8]
}

/// The first `n` elements of a sequence, with a comma between each two.
pub open spec fn elements_text(items: Seq<Value>, n: nat) -> Seq<u8>
    decreases items, n,
{
    if n == 0 || n > items.len() {
        Seq::<u8>::empty()
    } else if n == 1 {
        items[0].text()
    } else {
        elements_text(items, (n - 1) as nat) + seq![44u8] + items[n - 1].text()
    }
}

/// A field of a structure: its name as a string, a colon, its value.
pub open spec fn field_text(field: Field) -> Seq<u8>
    decreases field,
{
    quoted(field.name@) + seq![58u8] + field.value.text()
}

/// The first `n` fields of a structure, with a comma between each two.
pub open spec fn fields_text(fields: Seq<Field>, n: nat) -> Seq<u8>
    decreases fields, n,
{
    if n == 0 || n > fields.len() {
        Seq::<u8>::empty()
    } else if n == 1 {
        field_text(fields[0])
    } else {
        fields_text(fields, (n - 1) as nat) + seq![44u8] + field_text(fields[n - 1])
    }
}

impl Value {
    /// The JSON text of this value. A value of a shape that is not written has none, and
    /// stands for the empty text here.
    pub open spec fn text(self) -> Seq<u8>
        decreases self,
    {
        match self {
            Value::Bool(v) => bool_text(v),
            Value::I8(v) => signed_decimal(v as int),
            Value::I16(v) => signed_decimal(v as int),
            Value::I32(v) => signed_decimal(v as int),
            Value::I64(v) => signed_decimal(v as int),
            Value::U8(v) => decimal(v as nat),
            Value::U16(v) => decimal(v as nat),
            Value::U32(v) => decimal(v as nat),
            Value::U64(v) => decimal(v as nat),
            Value::Float(text) => encode_utf8(text@),
            Value::Char(c) => quoted(seq![c]),
            Value::Str(s) => quoted(s@),
            Value::Absent => null_text(),
            Value::Present(inner) => inner.text(),
            Value::UnitVariant { index, label } => quoted(label@),
            Value::Sequence(items) => seq![91u8] + elements_text(items@, items@.len()) + seq![93u8],
            Value::Tuple(items) => seq![91u8] + elements_text(items@, items@.len()) + seq![93u8],
            Value::Struct(fields) => seq![123u8] + fields_text(fields@, fields@.len())
                + seq![125u8],
            Value::Other(_) => Seq::<u8>::empty(),
        }
    }

    /// Whether the value can be written: nothing in it, as far as the encoder goes into it,
    /// has a shape that is not written or a number text that is too long.
    pub open spec fn supported(self) -> bool {
        self.script().failure is None
    }
}

/// A string is written as the grammar says.
pub proof fn lemma_string_script_text(s: Seq<char>)
    ensures
        string_script(s).failure is None,
        string_script(s).bytes() == quoted(s),
{
    let quote = Script::chunk(seq![34u8]);
    let body = Script::chunk(encode_utf8(s));
    lemma_flat_one(seq![34u8]);
    lemma_flat_one(encode_utf8(s));
    lemma_followed_by_bytes(quote, body);
    lemma_followed_by_bytes(quote.followed_by(body), quote);
}

/// The elements of a sequence can be written exactly when each of them can.
pub proof fn lemma_elements_supported(items: Seq<Value>, n: nat)
    requires
        n <= items.len(),
    ensures
        elements_script(items, n).failure is None <==> forall|i: int|
            0 <= i < n ==> (#[trigger] items[i]).supported(),
    decreases n,
{
    if n > 0 {
        lemma_elements_supported(items, (n - 1) as nat);
        assert(elements_script(items, n) == elements_script(items, (n - 1) as nat).followed_by(
            element_script(n == 1, items[n - 1]),
        ));
        assert(element_script(n == 1, items[n - 1]) == separator_script(n == 1).followed_by(
            items[n - 1].script(),
        ));
        if elements_script(items, n).failure is None {
            assert forall|i: int| 0 <= i < n implies (#[trigger] items[i]).supported() by {
                if i == n - 1 {
                    assert(items[n - 1].script().failure is None);
                }
            }
        }
        if forall|i: int| 0 <= i < n ==> (#[trigger] items[i]).supported() {
            assert(items[n - 1].supported());
        }
    }
}

/// The fields of a structure can be written exactly when the value of each can.
pub proof fn lemma_fields_supported(fields: Seq<Field>, n: nat)
    requires
        n <= fields.len(),
    ensures
        fields_script(fields, n).failure is None <==> forall|i: int|
            0 <= i < n ==> (#[trigger] fields[i]).value.supported(),
    decreases n,
{
    if n > 0 {
        lemma_fields_supported(fields, (n - 1) as nat);
        lemma_string_script_text(fields[n - 1].name@);
        assert(fields_script(fields, n) == fields_script(fields, (n - 1) as nat).followed_by(
            field_script(n == 1, fields[n - 1].name@, fields[n - 1].value),
        ));
        assert(field_script(n == 1, fields[n - 1].name@, fields[n - 1].value) == key_script(
            n == 1,
            fields[n - 1].name@,
        ).followed_by(fields[n - 1].value.script()));
        if fields_script(fields, n).failure is None {
            assert forall|i: int| 0 <= i < n implies (#[trigger] fields[i]).value.supported() by {
                if i == n - 1 {
                    assert(fields[n - 1].value.script().failure is None);
                }
            }
        }
        if forall|i: int| 0 <= i < n ==> (#[trigger] fields[i]).value.supported() {
            assert(fields[n - 1].value.supported());
        }
    }
}

proof fn lemma_sequence_supported(items: Seq<Value>)
    ensures
        sequence_script(items).failure is None <==> forall|i: int|
            0 <= i < items.len() ==> (#[trigger] items[i]).supported(),
{
    lemma_elements_supported(items, items.len());
    assert(sequence_script(items) == Script::chunk(seq![91u8]).followed_by(
        elements_script(items, items.len()),
    ).followed_by(Script::chunk(seq![93u8])));
}

proof fn lemma_struct_supported(fields: Seq<Field>)
    ensures
        struct_script(fields).failure is None <==> forall|i: int|
            0 <= i < fields.len() ==> (#[trigger] fields[i]).value.supported(),
{
    lemma_fields_supported(fields, fields.len());
    assert(struct_script(fields) == Script::chunk(seq![123u8]).followed_by(
        fields_script(fields, fields.len()),
    ).followed_by(Script::chunk(seq![125u8])));
}

/// Which values can be written, shape by shape.
pub proof fn lemma_supported(value: Value)
    ensures
        value.supported() <==> match value {
            Value::Float(text) => encode_utf8(text@).len() <= FLOAT_TEXT_MAX,
            Value::Present(inner) => inner.supported(),
            Value::Sequence(items) => forall|i: int|
                0 <= i < items@.len() ==> (#[trigger] items@[i]).supported(),
            Value::Tuple(items) => forall|i: int|
                0 <= i < items@.len() ==> (#[trigger] items@[i]).supported(),
            Value::Struct(fields) => forall|i: int|
                0 <= i < fields@.len() ==> (#[trigger] fields@[i]).value.supported(),
            Value::Other(_) => false,
            _ => true,
        },
{
    match value {
        Value::Char(c) => {
            lemma_string_script_text(seq![c]);
        },
        Value::Str(s) => {
            lemma_string_script_text(s@);
        },
        Value::UnitVariant { index, label } => {
            lemma_string_script_text(label@);
        },
        Value::Sequence(items) => {
            lemma_sequence_supported(items@);
        },
        Value::Tuple(items) => {
            lemma_sequence_supported(items@);
        },
        Value::Struct(fields) => {
            lemma_struct_supported(fields@);
        },
        _ => {},
    }
}

/// A value that can be written is written as the grammar says.
pub proof fn lemma_script_text(value: Value)
    requires
        value.supported(),
    ensures
        value.script().bytes() == value.text(),
    decreases value, 0nat,
{
    match value {
        Value::Bool(v) => {
            lemma_flat_one(bool_text(v));
        },
        Value::I8(v) => {
            lemma_flat_one(signed_decimal(v as int));
        },
        Value::I16(v) => {
            lemma_flat_one(signed_decimal(v as int));
        },
        Value::I32(v) => {
            lemma_flat_one(signed_decimal(v as int));
        },
        Value::I64(v) => {
            lemma_flat_one(signed_decimal(v as int));
        },
        Value::U8(v) => {
            lemma_flat_one(decimal(v as nat));
        },
        Value::U16(v) => {
            lemma_flat_one(decimal(v as nat));
        },
        Value::U32(v) => {
            lemma_flat_one(decimal(v as nat));
        },
        Value::U64(v) => {
            lemma_flat_one(decimal(v as nat));
        },
        Value::Float(text) => {
            lemma_flat_one(encode_utf8(text@));
        },
        Value::Char(c) => {
            lemma_string_script_text(seq![c]);
        },
        Value::Str(s) => {
            lemma_string_script_text(s@);
        },
        Value::Absent => {
            lemma_flat_one(null_text());
        },
        Value::Present(inner) => {
            lemma_script_text(*inner);
        },
        Value::UnitVariant { index, label } => {
            lemma_string_script_text(label@);
        },
        Value::Sequence(items) => {
            lemma_sequence_script_text(items@);
        },
        Value::Tuple(items) => {
            lemma_sequence_script_text(items@);
        },
        Value::Struct(fields) => {
            lemma_struct_script_text(fields@);
        },
        Value::Other(_) => {},
    }
}

proof fn lemma_sequence_script_text(items: Seq<Value>)
    requires
        sequence_script(items).failure is None,
    ensures
        sequence_script(items).bytes() == seq![91u8] + elements_text(items, items.len())
            + seq![93u8],
    decreases items, items.len() + 1,
{
    let open = Script::chunk(seq![91u8]);
    let inside = elements_script(items, items.len());
    let close = Script::chunk(seq![93u8]);
    lemma_flat_one(seq![91u8]);
    lemma_flat_one(seq![93u8]);
    lemma_elements_script_text(items, items.len());
    lemma_followed_by_bytes(open, inside);
    lemma_followed_by_bytes(open.followed_by(inside), close);
}

proof fn lemma_struct_script_text(fields: Seq<Field>)
    requires
        struct_script(fields).failure is None,
    ensures
        struct_script(fields).bytes() == seq![123u8] + fields_text(fields, fields.len())
            + seq![125u8],
    decreases fields, fields.len() + 1,
{
    let open = Script::chunk(seq![123u8]);
    let inside = fields_script(fields, fields.len());
    let close = Script::chunk(seq![125u8]);
    lemma_flat_one(seq![123u8]);
    lemma_flat_one(seq![125u8]);
    lemma_fields_script_text(fields, fields.len());
    lemma_followed_by_bytes(open, inside);
    lemma_followed_by_bytes(open.followed_by(inside), close);
}

proof fn lemma_elements_script_text(items: Seq<Value>, n: nat)
    requires
        n <= items.len(),
        elements_script(items, n).failure is None,
    ensures
        elements_script(items, n).bytes() == elements_text(items, n),
    decreases items, n,
{
    if n > 0 {
        let before = elements_script(items, (n - 1) as nat);
        let separator = separator_script(n == 1);
        let item = items[n - 1];
        lemma_elements_script_text(items, (n - 1) as nat);
        lemma_script_text(item);
        lemma_flat_one(seq![44u8]);
        lemma_followed_by_bytes(separator, item.script());
        lemma_followed_by_bytes(before, element_script(n == 1, item));
        assert(elements_script(items, n).bytes() =~= elements_text(items, n));
    }
}

proof fn lemma_fields_script_text(fields: Seq<Field>, n: nat)
    requires
        n <= fields.len(),
        fields_script(fields, n).failure is None,
    ensures
        fields_script(fields, n).bytes() == fields_text(fields, n),
    decreases fields, n,
{
    if n > 0 {
        let before = fields_script(fields, (n - 1) as nat);
        let separator = separator_script(n == 1);
        let field = fields[n - 1];
        let name = string_script(field.name@);
        let colon = Script::chunk(seq![58u8]);
        lemma_fields_script_text(fields, (n - 1) as nat);
        lemma_string_script_text(field.name@);
        lemma_script_text(field.value);
        lemma_flat_one(seq![44u8]);
        lemma_flat_one(seq![58u8]);
        lemma_followed_by_bytes(separator, name);
        lemma_followed_by_bytes(separator.followed_by(name), colon);
        lemma_followed_by_bytes(key_script(n == 1, field.name@), field.value.script());
        lemma_followed_by_bytes(before, field_script(n == 1, field.name@, field.value));
        assert(fields_script(fields, n) == before.followed_by(
            field_script(n == 1, field.name@, field.value),
        ));
        assert(field_script(n == 1, field.name@, field.value) == key_script(
            n == 1,
            field.name@,
        ).followed_by(field.value.script()));
        assert(key_script(n == 1, field.name@).bytes() =~= separator.bytes() + quoted(field.name@)
            + seq![58u8]);
        assert(field_text(field) == quoted(field.name@) + seq![58u8] + field.value.text());
        assert(fields_script(fields, n).bytes() =~= fields_text(fields, n));
    }
}

/// A value that can be written comes out whole when the capacity is at least the length of
/// its text, and fails for lack of room with any smaller capacity. A value that cannot be
/// written fails with every capacity.
pub proof fn lemma_outcome(value: Value, capacity: nat)
    ensures
        value.supported() && value.text().len() <= capacity ==> outcome(value, capacity) == Ok::<
            Seq<u8>,
            Error,
        >(value.text()),
        value.supported() && value.text().len() > capacity ==> outcome(value, capacity) == Err::<
            Seq<u8>,
            Error,
        >(Error::BufferFull),
        !value.supported() ==> outcome(value, capacity) is Err,
{
    if value.supported() {
        lemma_script_text(value);
    }
}

/// The capacity that is exactly the length of the text is enough, and one byte less is not.
pub proof fn lemma_exact_capacity(value: Value)
    requires
        value.supported(),
    ensures
        outcome(value, value.text().len()) == Ok::<Seq<u8>, Error>(value.text()),
        value.text().len() > 0 ==> outcome(value, (value.text().len() - 1) as nat) == Err::<
            Seq<u8>,
            Error,
        >(Error::BufferFull),
{
    lemma_outcome(value, value.text().len());
    if value.text().len() > 0 {
        lemma_outcome(value, (value.text().len() - 1) as nat);
    }
}

/// Where the text of element `i` starts among the elements of a sequence.
pub open spec fn element_start(items: Seq<Value>, i: nat) -> nat {
    if i == 0 {
        0
    } else {
        elements_text(items, i).len() + 1
    }
}

/// The elements of a sequence stand in their order, each as its own text, with one comma in
/// front of each but the first and nothing else around them.
pub proof fn lemma_element_at(items: Seq<Value>, n: nat, i: nat)
    requires
        i < n <= items.len(),
    ensures
        element_start(items, i) + items[i as int].text().len() == elements_text(
            items,
            i + 1,
        ).len(),
        elements_text(items, i + 1).len() <= elements_text(items, n).len(),
        elements_text(items, n).subrange(
            element_start(items, i) as int,
            elements_text(items, i + 1).len() as int,
        ) == items[i as int].text(),
        i > 0 ==> elements_text(items, n)[element_start(items, i) - 1] == 44,
        i + 1 == n ==> elements_text(items, i + 1) == elements_text(items, n),
    decreases n,
{
    if i + 1 == n {
        if i > 0 {
            assert(elements_text(items, n) == elements_text(items, i) + seq![44u8]
                + items[i as int].text());
        }
        assert(elements_text(items, n).subrange(
            element_start(items, i) as int,
            elements_text(items, n).len() as int,
        ) =~= items[i as int].text());
    } else {
        lemma_element_at(items, (n - 1) as nat, i);
        let shorter = elements_text(items, (n - 1) as nat);
        assert(elements_text(items, n) == shorter + seq![44u8] + items[n - 1].text());
        assert(elements_text(items, n).subrange(
            element_start(items, i) as int,
            elements_text(items, i + 1).len() as int,
        ) =~= shorter.subrange(
            element_start(items, i) as int,
            elements_text(items, i + 1).len() as int,
        ));
    }
}

/// The length of the texts of the first `n` elements taken together.
pub open spec fn elements_len(items: Seq<Value>, n: nat) -> nat
    decreases n,
{
    if n == 0 || n > items.len() {
        0
    } else {
        elements_len(items, (n - 1) as nat) + items[n - 1].text().len()
    }
}

/// Between `n` elements stand `n - 1` commas, and none stands around no element.
pub proof fn lemma_elements_separators(items: Seq<Value>, n: nat)
    requires
        n <= items.len(),
    ensures
        elements_text(items, n).len() == elements_len(items, n) + if n == 0 {
            0
        } else {
            n - 1
        },
    decreases n,
{
    if n > 1 {
        lemma_elements_separators(items, (n - 1) as nat);
    } else if n == 1 {
        assert(elements_len(items, 0) == 0);
    }
}

/// A sequence is its elements between brackets, whether it is written as a sequence or as
/// a tuple; with no element it is `[]`.
pub proof fn lemma_sequence_text(items: Vec<Value>)
    ensures
        Value::Tuple(items).text() == Value::Sequence(items).text(),
        Value::Sequence(items).text().len() == elements_len(items@, items@.len()) + 2 + if items@.len()
            == 0 {
            0
        } else {
            items@.len() - 1
        },
        Value::Sequence(items).text().first() == 91,
        Value::Sequence(items).text().last() == 93,
        items@.len() == 0 ==> Value::Sequence(items).text() == seq![91u8, 93u8],
{
    lemma_elements_separators(items@, items@.len());
    if items@.len() == 0 {
        assert(Value::Sequence(items).text() =~= seq![91u8, 93u8]);
    }
}

/// Where the text of field `i` starts among the fields of a structure.
pub open spec fn field_start(fields: Seq<Field>, i: nat) -> nat {
    if i == 0 {
        0
    } else {
        fields_text(fields, i).len() + 1
    }
}

/// The fields of a structure stand in their order, each as its name, a colon and its value,
/// with one comma in front of each but the first and nothing else around them.
pub proof fn lemma_field_at(fields: Seq<Field>, n: nat, i: nat)
    requires
        i < n <= fields.len(),
    ensures
        field_start(fields, i) + field_text(fields[i as int]).len() == fields_text(
            fields,
            i + 1,
        ).len(),
        fields_text(fields, i + 1).len() <= fields_text(fields, n).len(),
        fields_text(fields, n).subrange(
            field_start(fields, i) as int,
            fields_text(fields, i + 1).len() as int,
        ) == field_text(fields[i as int]),
        i > 0 ==> fields_text(fields, n)[field_start(fields, i) - 1] == 44,
        i + 1 == n ==> fields_text(fields, i + 1) == fields_text(fields, n),
    decreases n,
{
    if i + 1 == n {
        if i > 0 {
            assert(fields_text(fields, n) == fields_text(fields, i) + seq![44u8] + field_text(
                fields[i as int],
            ));
        }
        assert(fields_text(fields, n).subrange(
            field_start(fields, i) as int,
            fields_text(fields, n).len() as int,
        ) =~= field_text(fields[i as int]));
    } else {
        lemma_field_at(fields, (n - 1) as nat, i);
        let shorter = fields_text(fields, (n - 1) as nat);
        assert(fields_text(fields, n) == shorter + seq![44u8] + field_text(fields[n - 1]));
        assert(fields_text(fields, n).subrange(
            field_start(fields, i) as int,
            fields_text(fields, i + 1).len() as int,
        ) =~= shorter.subrange(
            field_start(fields, i) as int,
            fields_text(fields, i + 1).len() as int,
        ));
    }
}

/// The length of the texts of the first `n` fields taken together.
pub open spec fn fields_len(fields: Seq<Field>, n: nat) -> nat
    decreases n,
{
    if n == 0 || n > fields.len() {
        0
    } else {
        fields_len(fields, (n - 1) as nat) + field_text(fields[n - 1]).len()
    }
}

/// Between `n` fields stand `n - 1` commas, and none stands around no field.
pub proof fn lemma_fields_separators(fields: Seq<Field>, n: nat)
    requires
        n <= fields.len(),
    ensures
        fields_text(fields, n).len() == fields_len(fields, n) + if n == 0 {
            0
        } else {
            n - 1
        },
    decreases n,
{
    if n > 1 {
        lemma_fields_separators(fields, (n - 1) as nat);
    } else if n == 1 {
        assert(fields_len(fields, 0) == 0);
    }
}

/// A structure is its fields between braces; with no field it is `{}`.
pub proof fn lemma_struct_text(fields: Vec<Field>)
    ensures
        Value::Struct(fields).text().len() == fields_len(fields@, fields@.len()) + 2 + if fields@.len()
            == 0 {
            0
        } else {
            fields@.len() - 1
        },
        Value::Struct(fields).text().first() == 123,
        Value::Struct(fields).text().last() == 125,
        fields@.len() == 0 ==> Value::Struct(fields).text() == seq![123u8, 125u8],
{
    lemma_fields_separators(fields@, fields@.len());
    if fields@.len() == 0 {
        assert(Value::Struct(fields).text() =~= seq![123u8, 125u8]);
    }
}

/// A field whose value is absent is written with `null` for its value: it is not left out.
pub proof fn lemma_absent_field(field: Field)
    requires
        field.value is Absent,
    ensures
        field.value.supported(),
        field_text(field) == quoted(field.name@) + seq![58u8] + null_text(),
        field_text(field).len() == quoted(field.name@).len() + 5,
{
}

/// A variant without payload is written as its label; its position plays no part.
pub proof fn lemma_unit_variant(index: u32, other_index: u32, label: String)
    ensures
        (Value::UnitVariant { index, label }).supported(),
        (Value::UnitVariant { index, label }).text() == quoted(label@),
        (Value::UnitVariant { index: other_index, label }).text() == (Value::UnitVariant {
            index,
            label,
        }).text(),
{
    lemma_string_script_text(label@);
}

/// A character is written as the string that holds it alone: all bytes of its UTF-8
/// encoding, as they are, between two quotes.
pub proof fn lemma_char_text(c: char)
    ensures
        Value::Char(c).supported(),
        Value::Char(c).text() == seq![34u8] + encode_scalar(c as u32) + seq![34u8],
        Value::Char(c).text().len() == 2 + encode_scalar(c as u32).len(),
        1 <= encode_scalar(c as u32).len() <= 4,
{
    lemma_string_script_text(seq![c]);
    let one = seq![c];
    assert(one.drop_first() =~= Seq::<char>::empty());
    assert(encode_utf8(one.drop_first()) =~= Seq::<u8>::empty());
    assert(encode_utf8(one) == encode_scalar(one[0] as u32) + encode_utf8(one.drop_first()));
    assert(encode_utf8(one) =~= encode_scalar(c as u32));
}

/// Bytes below 128 are UTF-8 as they stand.
pub proof fn lemma_ascii_valid_utf8(bytes: Seq<u8>)
    requires
        forall|i: int| 0 <= i < bytes.len() ==> bytes[i] < 128,
    ensures
        valid_utf8(bytes),
{
    let chars = Seq::new(bytes.len(), |i: int| bytes[i] as char);
    assert(is_ascii_chars(chars)) by {
        assert forall|i: int| 0 <= i < chars.len() implies '\0' <= #[trigger] chars[i]
            <= '\u{7f}' by {
            assert(chars[i] == bytes[i] as char);
        }
    }
    is_ascii_chars_encode_utf8(chars);
    assert(encode_utf8(chars) =~= bytes) by {
        assert forall|i: int| 0 <= i < bytes.len() implies encode_utf8(chars)[i] == bytes[i] by {
            assert(chars[i] as u8 == encode_utf8(chars)[i]);
            assert(chars[i] == bytes[i] as char);
        }
    }
    encode_utf8_valid_utf8(chars);
}

/// Steps that write UTF-8 each write UTF-8 together.
pub proof fn lemma_followed_by_utf8(first: Script, next: Script)
    requires
        valid_utf8(first.bytes()),
        valid_utf8(next.bytes()),
    ensures
        valid_utf8(first.followed_by(next).bytes()),
{
    lemma_followed_by_bytes(first, next);
    valid_utf8_concat(first.bytes(), next.bytes());
}

/// A chunk of bytes below 128 is a step that writes UTF-8.
pub proof fn lemma_ascii_chunk_utf8(bytes: Seq<u8>)
    requires
        forall|i: int| 0 <= i < bytes.len() ==> bytes[i] < 128,
    ensures
        valid_utf8(Script::chunk(bytes).bytes()),
{
    lemma_flat_one(bytes);
    lemma_ascii_valid_utf8(bytes);
}

/// A string goes out as UTF-8, whatever it holds.
pub proof fn lemma_string_script_utf8(s: Seq<char>)
    ensures
        valid_utf8(string_script(s).bytes()),
{
    let quote = Script::chunk(seq![34u8]);
    let body = Script::chunk(encode_utf8(s));
    lemma_ascii_chunk_utf8(seq![34u8]);
    lemma_flat_one(encode_utf8(s));
    encode_utf8_valid_utf8(s);
    lemma_followed_by_utf8(quote, body);
    lemma_followed_by_utf8(quote.followed_by(body), quote);
}

/// The decimal text of a natural number is ASCII.
pub proof fn lemma_decimal_ascii(n: nat)
    ensures
        forall|k: int| 0 <= k < decimal(n).len() ==> decimal(n)[k] < 128,
{
    lemma_decimal_canonical(n);
}

/// The decimal text of an integer is ASCII.
pub proof fn lemma_signed_decimal_ascii(i: int)
    ensures
        forall|k: int| 0 <= k < signed_decimal(i).len() ==> signed_decimal(i)[k] < 128,
{
    if i < 0 {
        lemma_decimal_canonical((-i) as nat);
    } else {
        lemma_decimal_canonical(i as nat);
    }
}

/// Whatever a value asks to be written is UTF-8.
pub proof fn lemma_script_utf8(value: Value)
    ensures
        valid_utf8(value.script().bytes()),
    decreases value, 0nat,
{
    match value {
        Value::Bool(v) => {
            lemma_ascii_chunk_utf8(bool_text(v));
        },
        Value::I8(v) => {
            lemma_signed_decimal_ascii(v as int);
            lemma_ascii_chunk_utf8(signed_decimal(v as int));
        },
        Value::I16(v) => {
            lemma_signed_decimal_ascii(v as int);
            lemma_ascii_chunk_utf8(signed_decimal(v as int));
        },
        Value::I32(v) => {
            lemma_signed_decimal_ascii(v as int);
            lemma_ascii_chunk_utf8(signed_decimal(v as int));
        },
        Value::I64(v) => {
            lemma_signed_decimal_ascii(v as int);
            lemma_ascii_chunk_utf8(signed_decimal(v as int));
        },
        Value::U8(v) => {
            lemma_decimal_ascii(v as nat);
            lemma_ascii_chunk_utf8(decimal(v as nat));
        },
        Value::U16(v) => {
            lemma_decimal_ascii(v as nat);
            lemma_ascii_chunk_utf8(decimal(v as nat));
        },
        Value::U32(v) => {
            lemma_decimal_ascii(v as nat);
            lemma_ascii_chunk_utf8(decimal(v as nat));
        },
        Value::U64(v) => {
            lemma_decimal_ascii(v as nat);
            lemma_ascii_chunk_utf8(decimal(v as nat));
        },
        Value::Float(text) => {
            lemma_flat_one(encode_utf8(text@));
            encode_utf8_valid_utf8(text@);
            assert(valid_utf8(Seq::<u8>::empty()));
        },
        Value::Char(c) => {
            lemma_string_script_utf8(seq![c]);
        },
        Value::Str(s) => {
            lemma_string_script_utf8(s@);
        },
        Value::Absent => {
            lemma_ascii_chunk_utf8(null_text());
        },
        Value::Present(inner) => {
            lemma_script_utf8(*inner);
        },
        Value::UnitVariant { index, label } => {
            lemma_string_script_utf8(label@);
        },
        Value::Sequence(items) => {
            lemma_sequence_script_utf8(items@);
        },
        Value::Tuple(items) => {
            lemma_sequence_script_utf8(items@);
        },
        Value::Struct(fields) => {
            lemma_struct_script_utf8(fields@);
        },
        Value::Other(_) => {
            assert(valid_utf8(Seq::<u8>::empty()));
        },
    }
}

proof fn lemma_sequence_script_utf8(items: Seq<Value>)
    ensures
        valid_utf8(sequence_script(items).bytes()),
    decreases items, items.len() + 1,
{
    let open = Script::chunk(seq![91u8]);
    let inside = elements_script(items, items.len());
    lemma_ascii_chunk_utf8(seq![91u8]);
    lemma_ascii_chunk_utf8(seq![93u8]);
    lemma_elements_script_utf8(items, items.len());
    lemma_followed_by_utf8(open, inside);
    lemma_followed_by_utf8(open.followed_by(inside), Script::chunk(seq![93u8]));
}

proof fn lemma_struct_script_utf8(fields: Seq<Field>)
    ensures
        valid_utf8(struct_script(fields).bytes()),
    decreases fields, fields.len() + 1,
{
    let open = Script::chunk(seq![123u8]);
    let inside = fields_script(fields, fields.len());
    lemma_ascii_chunk_utf8(seq![123u8]);
    lemma_ascii_chunk_utf8(seq![125u8]);
    lemma_fields_script_utf8(fields, fields.len());
    lemma_followed_by_utf8(open, inside);
    lemma_followed_by_utf8(open.followed_by(inside), Script::chunk(seq![125u8]));
}

proof fn lemma_separator_utf8(first: bool)
    ensures
        valid_utf8(separator_script(first).bytes()),
{
    if first {
        assert(valid_utf8(Seq::<u8>::empty()));
    } else {
        lemma_ascii_chunk_utf8(seq![44u8]);
    }
}

proof fn lemma_elements_script_utf8(items: Seq<Value>, n: nat)
    ensures
        valid_utf8(elements_script(items, n).bytes()),
    decreases items, n,
{
    if n == 0 || n > items.len() {
        assert(valid_utf8(Seq::<u8>::empty()));
    } else {
        lemma_elements_script_utf8(items, (n - 1) as nat);
        lemma_separator_utf8(n == 1);
        lemma_script_utf8(items[n - 1]);
        lemma_followed_by_utf8(separator_script(n == 1), items[n - 1].script());
        lemma_followed_by_utf8(
            elements_script(items, (n - 1) as nat),
            element_script(n == 1, items[n - 1]),
        );
    }
}

proof fn lemma_fields_script_utf8(fields: Seq<Field>, n: nat)
    ensures
        valid_utf8(fields_script(fields, n).bytes()),
    decreases fields, n,
{
    if n == 0 || n > fields.len() {
        assert(valid_utf8(Seq::<u8>::empty()));
    } else {
        let field = fields[n - 1];
        lemma_fields_script_utf8(fields, (n - 1) as nat);
        lemma_separator_utf8(n == 1);
        lemma_string_script_utf8(field.name@);
        lemma_ascii_chunk_utf8(seq![58u8]);
        lemma_followed_by_utf8(separator_script(n == 1), string_script(field.name@));
        lemma_followed_by_utf8(
            separator_script(n == 1).followed_by(string_script(field.name@)),
            Script::chunk(seq![58u8]),
        );
        lemma_script_utf8(field.value);
        lemma_followed_by_utf8(key_script(n == 1, field.name@), field.value.script());
        lemma_followed_by_utf8(
            fields_script(fields, (n - 1) as nat),
            field_script(n == 1, field.name@, field.value),
        );
    }
}

} // verus!
