//! The model of a label: the fields laid end to end as one stream of bits,
//! cut into symbols of five bits, each written as one character.

use vstd::prelude::*;
use vstd::utf8::{encode_utf8, is_ascii_chars_encode_utf8};
use crate::bitwise::{
    bit_at, lemma_below_mask_bit, lemma_bits_determine, lemma_few_bits_below,
    lemma_low_mask_values, lemma_masked_bit, lemma_one_bit, lemma_or_bit, lemma_shift_left_bit,
    lemma_zero_bit, low_mask,
};
use crate::client_routing_label::EncodableData;

verus! {

/// The `width` binary digits of `value`, most significant first. Where
/// `width` is over 64 the digits in front are zero; where the value needs
/// more than `width` digits, the low `width` are given.
pub open spec fn bits_of(value: u64, width: nat) -> Seq<bool> {
    Seq::new(width, |place: int| bit_at(value, width - 1 - place))
}

/// The number whose binary digits, most significant first, are `bits`. Of
/// more than 64 digits the last 64 count.
pub open spec fn value_of(bits: Seq<bool>) -> u64
    decreases bits.len(),
{
    if bits.len() == 0 {
        0
    } else {
        (value_of(bits.drop_last()) << 1u64) | (if bits.last() {
            1u64
        } else {
            0u64
        })
    }
}

/// The bits that a field contributes to a label.
pub open spec fn field_bits(field: EncodableData) -> Seq<bool> {
    bits_of(field.value, field.num_bits as nat)
}

/// The bits of all fields, in the order of the fields.
pub open spec fn bit_stream(fields: Seq<EncodableData>) -> Seq<bool>
    decreases fields.len(),
{
    if fields.len() == 0 {
        Seq::empty()
    } else {
        bit_stream(fields.drop_last()) + field_bits(fields.last())
    }
}

/// The sum of the fields' widths.
pub open spec fn total_bits(fields: Seq<EncodableData>) -> nat
    decreases fields.len(),
{
    if fields.len() == 0 {
        0
    } else {
        total_bits(fields.drop_last()) + fields.last().num_bits as nat
    }
}

/// The place in the stream at which field `index` begins.
pub open spec fn field_offset(fields: Seq<EncodableData>, index: int) -> nat {
    total_bits(fields.take(index))
}

/// Whether two lists of fields have the same widths, field by field.
pub open spec fn same_widths(a: Seq<EncodableData>, b: Seq<EncodableData>) -> bool {
    &&& a.len() == b.len()
    &&& forall|index: int| 0 <= index < a.len() ==> a[index].num_bits == b[index].num_bits
}

/// The number of symbols that hold `num_bits` bits: `num_bits / 5`, rounded up.
pub open spec fn symbol_count(num_bits: nat) -> nat {
    (num_bits + 4) / 5
}

/// The five bits of symbol `index` of a stream. Past the end of the stream
/// the bits are zero.
pub open spec fn symbol_bits(bits: Seq<bool>, index: int) -> Seq<bool> {
    Seq::new(5, |place: int| 5 * index + place < bits.len() && bits[5 * index + place])
}

/// The stream as symbols, each a number below 32.
pub open spec fn symbol_values(bits: Seq<bool>) -> Seq<u8> {
    Seq::new(symbol_count(bits.len()), |index: int| value_of(symbol_bits(bits, index)) as u8)
}

/// The character, as a byte, that stands for a symbol: `a` to `z` for 0 to
/// 25, `2` to `7` for 26 to 31.
pub open spec fn symbol_byte(value: u8) -> u8 {
    if value < 26 {
        ('a' as u8 + value) as u8
    } else {
        ('2' as u8 + (value - 26)) as u8
    }
}

/// Whether a byte is one of the 32 characters of the alphabet.
pub open spec fn in_alphabet(byte: u8) -> bool {
    'a' as u8 <= byte <= 'z' as u8 || '2' as u8 <= byte <= '7' as u8
}

/// The symbol that a byte of a label stands for. A byte that is not in the
/// alphabet stands for 0, as `a` does.
pub open spec fn symbol_value(byte: u8) -> u8 {
    if 'a' as u8 <= byte <= 'z' as u8 {
        (byte - 'a' as u8) as u8
    } else if '2' as u8 <= byte <= '7' as u8 {
        (byte - '2' as u8 + 26) as u8
    } else {
        0
    }
}

/// The label that the fields encode to, as bytes.
pub open spec fn encoded_label(fields: Seq<EncodableData>) -> Seq<u8> {
    Seq::new(
        symbol_count(total_bits(fields)),
        |index: int| symbol_byte(symbol_values(bit_stream(fields))[index]),
    )
}

/// A label's bytes as characters.
pub open spec fn label_text(label: Seq<u8>) -> Seq<char> {
    Seq::new(label.len(), |index: int| label[index] as char)
}

/// The bits that a label holds: five for each byte.
pub open spec fn label_bits(label: Seq<u8>) -> Seq<bool> {
    Seq::new(
        5 * label.len(),
        |place: int| bit_at(symbol_value(label[place / 5]) as u64, 4 - place % 5),
    )
}

/// The value that decoding `label` gives field `index`: the number written
/// by the label's bits from the field's offset on, as many as the field is
/// wide.
pub open spec fn decoded_value(fields: Seq<EncodableData>, label: Seq<u8>, index: int) -> u64 {
    value_of(
        label_bits(label).subrange(
            field_offset(fields, index) as int,
            field_offset(fields, index) + fields[index].num_bits,
        ),
    )
}

/// The fields after decoding `label` into them: the widths stay, the values
/// come from the label.
pub open spec fn decoded_fields(fields: Seq<EncodableData>, label: Seq<u8>) -> Seq<EncodableData> {
    Seq::new(
        fields.len(),
        |index: int|
            EncodableData {
                value: decoded_value(fields, label, index),
                num_bits: fields[index].num_bits,
            },
    )
}

/// Digit `index` of `value_of(bits)`, counted from the least significant
/// end, is the digit that stands `index` places before the end of `bits`.
pub proof fn lemma_value_of_bit(bits: Seq<bool>, index: int)
    requires
        0 <= index < 64,
    ensures
        bit_at(value_of(bits), index) == (index < bits.len() && bits[bits.len() - 1 - index]),
    decreases bits.len(),
{
    if bits.len() == 0 {
        lemma_zero_bit(index);
    } else {
        let front = value_of(bits.drop_last());
        let last = if bits.last() { 1u64 } else { 0u64 };
        lemma_or_bit(front << 1u64, last, index);
        lemma_shift_left_bit(front, 1, index);
        lemma_one_bit(index);
        lemma_zero_bit(index);
        if index > 0 {
            lemma_value_of_bit(bits.drop_last(), index - 1);
        }
    }
}

/// The stream is as long as the fields are wide together.
pub proof fn lemma_bit_stream_len(fields: Seq<EncodableData>)
    ensures
        bit_stream(fields).len() == total_bits(fields),
    decreases fields.len(),
{
    if fields.len() > 0 {
        lemma_bit_stream_len(fields.drop_last());
    }
}

/// Each field begins where the one before it ends, and the last one ends
/// where the stream ends.
pub proof fn lemma_field_offset_step(fields: Seq<EncodableData>, index: int)
    requires
        0 <= index < fields.len(),
    ensures
        field_offset(fields, index + 1) == field_offset(fields, index) + fields[index].num_bits,
        field_offset(fields, 0) == 0,
        field_offset(fields, fields.len() as int) == total_bits(fields),
        field_offset(fields, index + 1) <= total_bits(fields),
    decreases fields.len() - index,
{
    assert(fields.take(index + 1).drop_last() =~= fields.take(index));
    assert(fields.take(fields.len() as int) =~= fields);
    assert(fields.take(0) =~= Seq::<EncodableData>::empty());
    if index + 1 < fields.len() {
        lemma_field_offset_step(fields, index + 1);
    }
}

/// Where a field begins depends on the widths alone.
pub proof fn lemma_same_widths_offset(a: Seq<EncodableData>, b: Seq<EncodableData>, index: int)
    requires
        same_widths(a, b),
        0 <= index <= a.len(),
    ensures
        field_offset(a, index) == field_offset(b, index),
    decreases index,
{
    if index == 0 {
        assert(a.take(0) =~= Seq::<EncodableData>::empty());
        assert(b.take(0) =~= Seq::<EncodableData>::empty());
    } else {
        lemma_same_widths_offset(a, b, index - 1);
        lemma_field_offset_step(a, index - 1);
        lemma_field_offset_step(b, index - 1);
    }
}

/// Fields of the same widths are as wide together.
pub proof fn lemma_same_widths_total(a: Seq<EncodableData>, b: Seq<EncodableData>)
    requires
        same_widths(a, b),
    ensures
        total_bits(a) == total_bits(b),
{
    lemma_same_widths_offset(a, b, a.len() as int);
    assert(a.take(a.len() as int) =~= a);
    assert(b.take(b.len() as int) =~= b);
}

/// Where a field's bits stand in the stream: bit `place` of field `index`,
/// counted from the field's most significant end, is bit
/// `num_bits - 1 - place` of the field's value.
pub proof fn lemma_stream_bit(fields: Seq<EncodableData>, index: int, place: int)
    requires
        0 <= index < fields.len(),
        0 <= place < fields[index].num_bits,
    ensures
        field_offset(fields, index) + place < bit_stream(fields).len(),
        bit_stream(fields)[field_offset(fields, index) + place] == bit_at(
            fields[index].value,
            fields[index].num_bits - 1 - place,
        ),
    decreases fields.len(),
{
    let front = fields.drop_last();
    lemma_bit_stream_len(front);
    lemma_bit_stream_len(fields);
    if index == fields.len() - 1 {
        assert(fields.take(index) =~= front);
    } else {
        assert(front.take(index) =~= fields.take(index));
        lemma_stream_bit(front, index, place);
    }
}

/// A number below 32 whose five digits are those of symbol `index` of a
/// stream is that symbol.
pub proof fn lemma_symbol_from_bits(bits: Seq<bool>, index: int, value: u64)
    requires
        0 <= index < symbol_count(bits.len()),
        value < 32,
        bits_of(value, 5) =~= symbol_bits(bits, index),
    ensures
        symbol_values(bits)[index] == value,
{
    let symbol = value_of(symbol_bits(bits, index));
    lemma_low_mask_values();
    assert forall|i: int| 0 <= i < 64 implies bit_at(symbol, i) == bit_at(value, i) by {
        lemma_value_of_bit(symbol_bits(bits, index), i);
        if i >= 5 {
            lemma_below_mask_bit(value, 5, i);
        } else {
            assert(bits_of(value, 5)[4 - i] == bit_at(value, i));
        }
    }
    lemma_bits_determine(symbol, value);
}

/// Where a byte's bits stand in a label's bits: bit `place` of symbol
/// `symbol`, counted from the symbol's most significant end.
pub proof fn lemma_label_bit(label: Seq<u8>, symbol: int, place: int)
    requires
        0 <= symbol < label.len(),
        0 <= place < 5,
    ensures
        label_bits(label)[5 * symbol + place] == bit_at(
            symbol_value(label[symbol]) as u64,
            4 - place,
        ),
{
    let at = 5 * symbol + place;
    assert(at / 5 == symbol && at % 5 == place);
}

/// A value whose digits are the `width` bits of a stream from `start` on is
/// the number that those bits write.
pub proof fn lemma_value_from_bits(bits: Seq<bool>, start: int, width: int, value: u64)
    requires
        0 <= start,
        0 <= width,
        start + width <= bits.len(),
        forall|i: int|
            0 <= i < 64 ==> #[trigger] bit_at(value, i) == (i < width && bits[start + width - 1
                - i]),
    ensures
        value == value_of(bits.subrange(start, start + width)),
{
    let part = bits.subrange(start, start + width);
    assert forall|i: int| 0 <= i < 64 implies bit_at(value, i) == bit_at(value_of(part), i) by {
        lemma_value_of_bit(part, i);
    }
    lemma_bits_determine(value, value_of(part));
}

/// Every symbol of a stream is below 32, and its bits are the stream's.
pub proof fn lemma_symbol_bits(bits: Seq<bool>, index: int, place: int)
    requires
        0 <= index < symbol_count(bits.len()),
        0 <= place < 5,
    ensures
        symbol_values(bits)[index] < 32,
        bit_at(symbol_values(bits)[index] as u64, 4 - place) == (5 * index + place < bits.len()
            && bits[5 * index + place]),
{
    let group = symbol_bits(bits, index);
    let symbol = value_of(group);
    assert forall|i: int| 5 <= i < 64 implies !bit_at(symbol, i) by {
        lemma_value_of_bit(group, i);
    }
    lemma_few_bits_below(symbol, 5);
    lemma_low_mask_values();
    lemma_value_of_bit(group, 4 - place);
}

/// Reading a symbol's character gives the symbol back.
pub proof fn lemma_symbol_value_of_byte(value: u8)
    requires
        value < 32,
    ensures
        symbol_value(symbol_byte(value)) == value,
        in_alphabet(symbol_byte(value)),
{
}

/// An encoded label holds characters of the alphabet only.
pub proof fn lemma_encoded_label_in_alphabet(fields: Seq<EncodableData>, index: int)
    requires
        0 <= index < symbol_count(total_bits(fields)),
    ensures
        in_alphabet(encoded_label(fields)[index]),
{
    lemma_bit_stream_len(fields);
    lemma_symbol_bits(bit_stream(fields), index, 0);
    lemma_symbol_value_of_byte(symbol_values(bit_stream(fields))[index]);
}

/// The text of an encoded label has the label's bytes as its bytes.
pub proof fn lemma_encoded_label_text(fields: Seq<EncodableData>)
    ensures
        encode_utf8(label_text(encoded_label(fields))) == encoded_label(fields),
{
    let label = encoded_label(fields);
    let text = label_text(label);
    assert forall|i: int| 0 <= i < text.len() implies '\0' <= #[trigger] text[i] <= '\u{7f}' by {
        lemma_encoded_label_in_alphabet(fields, i);
    }
    is_ascii_chars_encode_utf8(text);
    assert forall|i: int| 0 <= i < label.len() implies encode_utf8(text)[i] == label[i] by {
        lemma_encoded_label_in_alphabet(fields, i);
        assert(text[i] as u8 == label[i]);
    }
    assert(encode_utf8(text) =~= label);
}

/// The bits of an encoded label are the bits of the fields, followed by
/// zeros up to the end of the last character.
pub proof fn lemma_encoded_label_bits(fields: Seq<EncodableData>, place: int)
    requires
        0 <= place < 5 * symbol_count(total_bits(fields)),
    ensures
        label_bits(encoded_label(fields))[place] == (place < total_bits(fields) && bit_stream(
            fields,
        )[place]),
{
    let stream = bit_stream(fields);
    lemma_bit_stream_len(fields);
    let index = place / 5;
    lemma_symbol_bits(stream, index, place % 5);
    lemma_symbol_value_of_byte(symbol_values(stream)[index]);
}

/// The number that the digits of a value write is the value, cut to as many
/// bits as there are digits.
pub proof fn lemma_value_of_bits_of(value: u64, width: nat)
    ensures
        value_of(bits_of(value, width)) == value & low_mask(width),
{
    let digits = bits_of(value, width);
    let cut = value & low_mask(width);
    assert forall|i: int| 0 <= i < 64 implies bit_at(value_of(digits), i) == bit_at(cut, i) by {
        lemma_value_of_bit(digits, i);
        lemma_masked_bit(value, width, i);
    }
    lemma_bits_determine(value_of(digits), cut);
}

} // verus!
