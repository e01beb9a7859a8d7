//! Encoding fields into a label of 5-bit symbols, and decoding a label into
//! fields.

use vstd::prelude::*;
use vstd::utf8::encode_utf8;
use crate::bitstream::{
    bit_stream, bits_of, decoded_fields, encoded_label, field_offset, in_alphabet, label_bits,
    label_text, lemma_bit_stream_len, lemma_encoded_label_in_alphabet, lemma_encoded_label_text,
    lemma_field_offset_step, lemma_label_bit, lemma_same_widths_total, lemma_stream_bit,
    lemma_symbol_from_bits, lemma_value_from_bits, same_widths, symbol_bits, symbol_byte,
    symbol_count, symbol_value, symbol_values, total_bits,
};
use crate::bitwise::{
    bit_at, get_mask, lemma_low_mask_values, lemma_mask_keeps, lemma_mask_twice,
    lemma_masked_below, lemma_masked_bit, lemma_or_below, lemma_or_bit, lemma_shift_left_bit,
    lemma_shift_right_bit, lemma_shift_right_le, lemma_shift_right_none, lemma_shifted_below,
    lemma_zero_bit, low_mask, shift_right,
};
use crate::client_routing_label::{
    front_bits, lemma_front_bits_bit, lemma_front_bits_fit, EncodableData,
};
use crate::errors::DecodeLengthError;

verus! {

/// The number of bits that one character of a label stands for.
pub const BASE32_NUM_BITS_IN_CHAR: u8 = 5;

/// The encoding of fields as text: five bits to a character, over the
/// alphabet `a` to `z`, `2` to `7`.
#[derive(Copy, Clone, Debug)]
pub struct Base32 {}

/// The five bits of symbol `symbol` while it is being put together: its first
/// `count` bits from the stream, then zeros.
spec fn pending_bits(stream: Seq<bool>, symbol: int, count: int) -> Seq<bool> {
    Seq::new(5, |place: int| place < count && stream[5 * symbol + place])
}

/// Whether `pending` is symbol `symbol` of the stream as far as its first
/// `count` bits go, with zeros behind them.
spec fn is_pending(stream: Seq<bool>, symbol: int, count: int, pending: u64) -> bool {
    pending < 32 && bits_of(pending, 5) =~= pending_bits(stream, symbol, count)
}

/// Whether `value` is the number that `filled` bits of `bits` write, from
/// `start` on.
spec fn holds_bits(value: u64, bits: Seq<bool>, start: int, filled: int) -> bool {
    forall|i: int|
        0 <= i < 64 ==> #[trigger] bit_at(value, i) == (i < filled && bits[start + filled - 1
            - i])
}

/// A symbol of which nothing is there yet is zero.
proof fn lemma_pending_empty(stream: Seq<bool>, symbol: int)
    ensures
        is_pending(stream, symbol, 0, 0),
{
    assert forall|place: int| 0 <= place < 5 implies bits_of(0u64, 5)[place] == pending_bits(
        stream,
        symbol,
        0,
    )[place] by {
        lemma_zero_bit(4 - place);
    }
}

/// The bits that complete a symbol: where a field still has the bits that
/// the symbol lacks, its next bits, put below the bits that are there, give
/// the symbol of the stream.
proof fn lemma_pending_completed(
    fields: Seq<EncodableData>,
    index: int,
    working: EncodableData,
    symbol: int,
    count: int,
    pending: u64,
)
    requires
        0 <= index < fields.len(),
        working.num_bits <= fields[index].num_bits,
        forall|i: int|
            0 <= i < working.num_bits ==> bit_at(working.value, i) == bit_at(
                fields[index].value,
                i,
            ),
        0 <= count < 5,
        5 - count <= working.num_bits,
        5 * symbol + count == field_offset(fields, index) + (fields[index].num_bits
            - working.num_bits),
        is_pending(bit_stream(fields), symbol, count, pending),
    ensures
        0 <= symbol < symbol_count(total_bits(fields)),
        (pending | front_bits(working.value, working.num_bits as nat, (5 - count) as nat)) < 32,
        symbol_values(bit_stream(fields))[symbol] == pending | front_bits(
            working.value,
            working.num_bits as nat,
            (5 - count) as nat,
        ),
{
    let stream = bit_stream(fields);
    let needed = (5 - count) as nat;
    let front = front_bits(working.value, working.num_bits as nat, needed);
    let taken = fields[index].num_bits - working.num_bits;
    lemma_bit_stream_len(fields);
    lemma_field_offset_step(fields, index);
    lemma_front_bits_fit(working.value, working.num_bits as nat, needed);
    lemma_low_mask_values();
    lemma_or_below(pending, front, 5);
    assert forall|place: int| 0 <= place < 5 implies bits_of(pending | front, 5)[place]
        == symbol_bits(stream, symbol)[place] by {
        lemma_or_bit(pending, front, 4 - place);
        lemma_front_bits_bit(working.value, working.num_bits as nat, needed, 4 - place);
        assert(bits_of(pending, 5)[place] == pending_bits(stream, symbol, count)[place]);
        if place >= count {
            lemma_stream_bit(fields, index, taken + (place - count));
        }
    }
    assert(bits_of(pending | front, 5) =~= symbol_bits(stream, symbol));
    lemma_symbol_from_bits(stream, symbol, pending | front);
}

/// The bits that a field leaves for the next symbol: where a field has
/// fewer bits left than a symbol lacks, they go below the bits that are
/// there, and the symbol has that many bits more.
proof fn lemma_pending_extended(
    fields: Seq<EncodableData>,
    index: int,
    working: EncodableData,
    symbol: int,
    count: int,
    pending: u64,
)
    requires
        0 <= index < fields.len(),
        working.num_bits <= fields[index].num_bits,
        forall|i: int|
            0 <= i < working.num_bits ==> bit_at(working.value, i) == bit_at(
                fields[index].value,
                i,
            ),
        0 <= count,
        count + working.num_bits < 5,
        5 * symbol + count == field_offset(fields, index) + (fields[index].num_bits
            - working.num_bits),
        is_pending(bit_stream(fields), symbol, count, pending),
    ensures
        front_bits(working.value, working.num_bits as nat, working.num_bits as nat) < 32,
        is_pending(
            bit_stream(fields),
            symbol,
            count + working.num_bits,
            pending | (front_bits(working.value, working.num_bits as nat, working.num_bits as nat)
                << ((5 - count - working.num_bits) as u64)),
        ),
{
    let stream = bit_stream(fields);
    let rest_bits = working.num_bits as nat;
    let rest = front_bits(working.value, rest_bits, rest_bits);
    let shift = (5 - count - rest_bits) as u64;
    let moved = rest << shift;
    let taken = fields[index].num_bits - working.num_bits;
    lemma_front_bits_fit(working.value, rest_bits, rest_bits);
    lemma_low_mask_values();
    lemma_masked_below(shift_right(working.value, 0), rest_bits, rest_bits);
    lemma_shifted_below(rest, rest_bits, shift, 5);
    lemma_or_below(pending, moved, 5);
    assert forall|place: int| 0 <= place < 5 implies bits_of(pending | moved, 5)[place]
        == pending_bits(stream, symbol, count + rest_bits)[place] by {
        lemma_or_bit(pending, moved, 4 - place);
        lemma_shift_left_bit(rest, shift, 4 - place);
        lemma_front_bits_bit(working.value, rest_bits, rest_bits, 4 - place - shift);
        assert(bits_of(pending, 5)[place] == pending_bits(stream, symbol, count)[place]);
        if count <= place < count + rest_bits {
            lemma_stream_bit(fields, index, taken + (place - count));
        }
    }
}

/// A symbol that ends with the stream is the stream's last symbol, the
/// places behind the stream's end filled with zeros.
proof fn lemma_pending_last(stream: Seq<bool>, symbol: int, count: int, pending: u64)
    requires
        0 <= symbol,
        0 < count < 5,
        5 * symbol + count == stream.len(),
        is_pending(stream, symbol, count, pending),
    ensures
        symbol + 1 == symbol_count(stream.len()),
        symbol_values(stream)[symbol] == pending,
{
    assert(pending_bits(stream, symbol, count) =~= symbol_bits(stream, symbol));
    lemma_symbol_from_bits(stream, symbol, pending);
}

/// The bits that a field gets from a symbol: of the `available` low bits of
/// a label's symbol, which `current` holds, the upper `count` go into the
/// field below the bits that are there; the others stay for the next field.
proof fn lemma_field_filled(
    label: Seq<u8>,
    symbol: int,
    available: nat,
    current: u64,
    count: nat,
    value: u64,
    start: int,
    filled: int,
)
    requires
        0 <= symbol < label.len(),
        0 < count <= available <= 5,
        current == (symbol_value(label[symbol]) as u64) & low_mask(available),
        0 <= filled,
        5 * symbol + (5 - available) == start + filled,
        holds_bits(value, label_bits(label), start, filled),
    ensures
        shift_right(current, (available - count) as nat) <= 31,
        holds_bits(
            (value << (count as u64)) | shift_right(current, (available - count) as nat),
            label_bits(label),
            start,
            filled + count,
        ),
        current & low_mask((available - count) as nat) <= 31,
        current & low_mask((available - count) as nat) == (symbol_value(label[symbol]) as u64)
            & low_mask((available - count) as nat),
{
    let bits = label_bits(label);
    let whole = symbol_value(label[symbol]) as u64;
    let kept = (available - count) as nat;
    let front = shift_right(current, kept);
    let after = (value << (count as u64)) | front;
    lemma_low_mask_values();
    lemma_masked_below(whole, available, 5);
    lemma_masked_below(current, kept, 5);
    lemma_shift_right_le(current, kept);
    lemma_mask_twice(whole, available, kept);
    assert forall|i: int| 0 <= i < 64 implies #[trigger] bit_at(after, i) == (i < filled + count
        && bits[start + filled + count - 1 - i]) by {
        lemma_or_bit(value << (count as u64), front, i);
        lemma_shift_left_bit(value, count as u64, i);
        lemma_shift_right_bit(current, kept, i);
        lemma_masked_bit(whole, available, kept + i);
        if i < count {
            lemma_label_bit(label, symbol, 4 - kept - i);
        } else {
            assert(bit_at(value, i - count) == (i - count < filled && bits[start + filled - 1 - (i
                - count)]));
        }
    }
}

/// The character of the alphabet that stands for `value`.
fn symbol_char(value: u8) -> (ch: char)
    requires
        value < 32,
    ensures
        ch == symbol_byte(value) as char,
{
    if value < 26 {
        ('a' as u8 + value) as char
    } else {
        ('2' as u8 + (value - 26)) as char
    }
}

/// The symbol that a byte of a label stands for; 0 for a byte outside the
/// alphabet.
fn symbol_of_byte(byte: u8) -> (value: u8)
    ensures
        value == symbol_value(byte),
        value < 32,
{
    if 'a' as u8 <= byte && byte <= 'z' as u8 {
        byte - 'a' as u8
    } else if '2' as u8 <= byte && byte <= '7' as u8 {
        byte - '2' as u8 + 26
    } else {
        0
    }
}

impl Base32 {
    /// Returns the label that the fields encode to. The fields' bits follow
    /// each other without gaps, each field's most significant bit first; each
    /// five bits make one character, and the last character is filled up with
    /// zero bits. Of a value that is wider than its field the low bits are
    /// encoded. The fields are left as they were.
    pub fn encode(&self, encodable_data: &mut [EncodableData]) -> (label: String)
        ensures
            label@ == label_text(encoded_label(old(encodable_data)@)),
            encode_utf8(label@) == encoded_label(old(encodable_data)@),
            label@.len() == symbol_count(total_bits(old(encodable_data)@)),
            forall|index: int|
                0 <= index < label@.len() ==> in_alphabet(
                    #[trigger] encoded_label(old(encodable_data)@)[index],
                ),
            final(encodable_data)@ == old(encodable_data)@,
    {
        let ghost fields = encodable_data@;
        let ghost stream = bit_stream(fields);
        let mut label = String::new();
        let mut value_to_encode: u64 = 0;
        let mut num_bits_left_over: u8 = 0;
        let mut index: usize = 0;
        proof {
            lemma_bit_stream_len(fields);
            lemma_pending_empty(stream, 0);
            assert(fields.take(0) =~= Seq::<EncodableData>::empty());
        }
        while index < encodable_data.len()
            invariant
                encodable_data@ == fields,
                stream == bit_stream(fields),
                stream.len() == total_bits(fields),
                index <= fields.len(),
                num_bits_left_over < 5,
                5 * label@.len() + num_bits_left_over == field_offset(fields, index as int),
                forall|j: int|
                    0 <= j < label@.len() ==> label@[j] == symbol_byte(
                        symbol_values(stream)[j],
                    ) as char,
                is_pending(
                    stream,
                    label@.len() as int,
                    num_bits_left_over as int,
                    value_to_encode,
                ),
            decreases fields.len() - index,
        {
            let mut data = encodable_data[index];
            proof {
                lemma_field_offset_step(fields, index as int);
            }
            while data.has_bits_for_char(BASE32_NUM_BITS_IN_CHAR - num_bits_left_over)
                invariant
                    stream == bit_stream(fields),
                    stream.len() == total_bits(fields),
                    index < fields.len(),
                    data.num_bits <= fields[index as int].num_bits,
                    forall|i: int|
                        0 <= i < data.num_bits ==> bit_at(data.value, i) == bit_at(
                            fields[index as int].value,
                            i,
                        ),
                    num_bits_left_over < 5,
                    5 * label@.len() + num_bits_left_over == field_offset(fields, index as int) + (
                    fields[index as int].num_bits - data.num_bits),
                    forall|j: int|
                        0 <= j < label@.len() ==> label@[j] == symbol_byte(
                            symbol_values(stream)[j],
                        ) as char,
                    is_pending(
                        stream,
                        label@.len() as int,
                        num_bits_left_over as int,
                        value_to_encode,
                    ),
                decreases data.num_bits,
            {
                let ghost working = data;
                proof {
                    lemma_pending_completed(
                        fields,
                        index as int,
                        working,
                        label@.len() as int,
                        num_bits_left_over as int,
                        value_to_encode,
                    );
                    lemma_front_bits_fit(
                        working.value,
                        working.num_bits as nat,
                        (5 - num_bits_left_over) as nat,
                    );
                }
                let front = data.get_next_bits_to_encode(
                    BASE32_NUM_BITS_IN_CHAR - num_bits_left_over,
                );
                value_to_encode = value_to_encode | front as u64;
                label.push(symbol_char(value_to_encode as u8));
                num_bits_left_over = 0;
                value_to_encode = 0;
                proof {
                    lemma_pending_empty(stream, label@.len() as int);
                    assert forall|i: int| 0 <= i < data.num_bits implies bit_at(data.value, i)
                        == bit_at(fields[index as int].value, i) by {
                        lemma_masked_bit(working.value, data.num_bits as nat, i);
                    }
                }
            }
            if data.num_bits > 0 {
                let ghost working = data;
                proof {
                    lemma_pending_extended(
                        fields,
                        index as int,
                        working,
                        label@.len() as int,
                        num_bits_left_over as int,
                        value_to_encode,
                    );
                    lemma_front_bits_fit(
                        working.value,
                        working.num_bits as nat,
                        working.num_bits as nat,
                    );
                }
                let rest_bits: u8 = data.num_bits;
                let rest = data.get_next_bits_to_encode(rest_bits);
                let shift: u8 = BASE32_NUM_BITS_IN_CHAR - (rest_bits + num_bits_left_over);
                value_to_encode = value_to_encode | ((rest as u64) << (shift as u64));
                num_bits_left_over = num_bits_left_over + rest_bits;
            }
            index += 1;
        }
        proof {
            assert(fields.take(fields.len() as int) =~= fields);
        }
        if num_bits_left_over > 0 {
            proof {
                lemma_pending_last(
                    stream,
                    label@.len() as int,
                    num_bits_left_over as int,
                    value_to_encode,
                );
            }
            label.push(symbol_char(value_to_encode as u8));
        }
        proof {
            assert(label@ =~= label_text(encoded_label(fields)));
            lemma_encoded_label_text(fields);
            assert forall|index: int| 0 <= index < label@.len() implies in_alphabet(
                #[trigger] encoded_label(fields)[index],
            ) by {
                lemma_encoded_label_in_alphabet(fields, index);
            }
        }
        label
    }

    /// Checks that a label has the length that `total_num_bits` bits take:
    /// one character for each five bits, the last five begun or full.
    /// Nothing else is checked of the label.
    pub fn is_valid_client_routing_label(
        &self,
        total_num_bits: u8,
        client_routing_label: &[u8],
    ) -> (result: Result<(), DecodeLengthError>)
        ensures
            result is Ok <==> client_routing_label@.len() == symbol_count(total_num_bits as nat),
            result matches Err(e) ==> e.num_chars == client_routing_label@.len()
                && e.expected_num_chars == symbol_count(total_num_bits as nat),
    {
        let num_bits_in_char: usize = BASE32_NUM_BITS_IN_CHAR as usize;
        let expected_num_chars: usize = (total_num_bits as usize + num_bits_in_char - 1)
            / num_bits_in_char;
        if client_routing_label.len() != expected_num_chars {
            return Err(
                DecodeLengthError { num_chars: client_routing_label.len(), expected_num_chars },
            );
        }
        Ok(())
    }

    /// Decodes a label into the fields. The label must have the length that
    /// `total_num_bits` bits take, else the error says which length it has and
    /// which was expected, and the fields stay as they are. Otherwise each
    /// field gets, as its value, the bits of the label at the field's place;
    /// the widths stay. A character outside the alphabet counts as `a`.
    ///
    /// `total_num_bits` is the sum of the fields' widths; a label of the length
    /// that it calls for must at least be long enough to hold them.
    pub fn decode(
        &self,
        encodable_data: &mut [EncodableData],
        encoded_label: &[u8],
        total_num_bits: u8,
    ) -> (result: Result<(), DecodeLengthError>)
        requires
            encoded_label@.len() == symbol_count(total_num_bits as nat) ==> total_bits(
                old(encodable_data)@,
            ) <= 5 * encoded_label@.len(),
        ensures
            result is Ok <==> encoded_label@.len() == symbol_count(total_num_bits as nat),
            result is Ok ==> final(encodable_data)@ == decoded_fields(
                old(encodable_data)@,
                encoded_label@,
            ),
            result matches Err(e) ==> e.num_chars == encoded_label@.len() && e.expected_num_chars
                == symbol_count(total_num_bits as nat) && final(encodable_data)@ == old(
                encodable_data,
            )@,
            same_widths(final(encodable_data)@, old(encodable_data)@),
            total_bits(final(encodable_data)@) == total_bits(old(encodable_data)@),
    {
        match self.is_valid_client_routing_label(total_num_bits, encoded_label) {
            Ok(()) => (),
            Err(e) => return Err(e),
        };
        let ghost fields = encodable_data@;
        let ghost label = encoded_label@;
        let ghost bits = label_bits(label);

        let mut label_values: Vec<u8> = Vec::new();
        let mut position: usize = 0;
        while position < encoded_label.len()
            invariant
                label == encoded_label@,
                position <= label.len(),
                label_values@.len() == position,
                forall|j: int|
                    0 <= j < position ==> label_values@[j] == symbol_value(label[j]),
            decreases label.len() - position,
        {
            label_values.push(symbol_of_byte(encoded_label[position]));
            position += 1;
        }

        let mut num_bits_in_char: u8 = BASE32_NUM_BITS_IN_CHAR;
        let mut label_index: usize = 0;
        let mut index: usize = 0;
        proof {
            lemma_low_mask_values();
            assert(fields.take(0) =~= Seq::<EncodableData>::empty());
            if label.len() > 0 {
                lemma_mask_keeps(symbol_value(label[0]) as u64, 5);
            }
        }
        while index < encodable_data.len()
            invariant
                encodable_data@.len() == fields.len(),
                index <= fields.len(),
                bits == label_bits(label),
                label_values@.len() == label.len(),
                label.len() <= usize::MAX,
                total_bits(fields) <= 5 * label.len(),
                1 <= num_bits_in_char <= 5,
                5 * label_index + (5 - num_bits_in_char) == field_offset(fields, index as int),
                label_index <= label.len(),
                label_index < label.len() ==> label_values@[label_index as int] as u64
                    == (symbol_value(label[label_index as int]) as u64) & low_mask(
                    num_bits_in_char as nat,
                ),
                forall|j: int|
                    label_index < j < label.len() ==> label_values@[j] == symbol_value(label[j]),
                forall|j: int|
                    0 <= j < index ==> encodable_data@[j] == decoded_fields(fields, label)[j],
                forall|j: int| index <= j < fields.len() ==> encodable_data@[j] == fields[j],
            decreases fields.len() - index,
        {
            let nominal_num_bits: u8 = encodable_data[index].num_bits;
            let mut data = EncodableData { value: 0, num_bits: nominal_num_bits };
            let ghost offset = field_offset(fields, index as int) as int;
            proof {
                lemma_field_offset_step(fields, index as int);
                assert forall|i: int| 0 <= i < 64 implies !bit_at(0u64, i) by {
                    lemma_zero_bit(i);
                }
            }
            while data.has_bits_for_char(num_bits_in_char)
                invariant
                    bits == label_bits(label),
                    label_values@.len() == label.len(),
                    label.len() <= usize::MAX,
                    offset + nominal_num_bits <= 5 * label.len(),
                    data.num_bits <= nominal_num_bits,
                    1 <= num_bits_in_char <= 5,
                    5 * label_index + (5 - num_bits_in_char) == offset + (nominal_num_bits
                        - data.num_bits),
                    label_index <= label.len(),
                    label_index < label.len() ==> label_values@[label_index as int] as u64
                        == (symbol_value(label[label_index as int]) as u64) & low_mask(
                        num_bits_in_char as nat,
                    ),
                    forall|j: int|
                        label_index < j < label.len() ==> label_values@[j] == symbol_value(
                            label[j],
                        ),
                    holds_bits(data.value, bits, offset, nominal_num_bits - data.num_bits),
                decreases data.num_bits,
            {
                proof {
                    lemma_field_filled(
                        label,
                        label_index as int,
                        num_bits_in_char as nat,
                        label_values@[label_index as int] as u64,
                        num_bits_in_char as nat,
                        data.value,
                        offset,
                        nominal_num_bits - data.num_bits,
                    );
                    lemma_shift_right_none(label_values@[label_index as int] as u64);
                    if label_index + 1 < label.len() {
                        lemma_low_mask_values();
                        lemma_mask_keeps(symbol_value(label[label_index + 1]) as u64, 5);
                    }
                }
                data.add_bits(num_bits_in_char, label_values[label_index]);
                label_index += 1;
                num_bits_in_char = BASE32_NUM_BITS_IN_CHAR;
            }
            if data.num_bits > 0 {
                let current: u64 = label_values[label_index] as u64;
                proof {
                    lemma_field_filled(
                        label,
                        label_index as int,
                        num_bits_in_char as nat,
                        current,
                        data.num_bits as nat,
                        data.value,
                        offset,
                        nominal_num_bits - data.num_bits,
                    );
                }
                num_bits_in_char -= data.num_bits;
                data.add_bits(data.num_bits, (current >> (num_bits_in_char as u64)) as u8);
                label_values[label_index] = (current & get_mask(num_bits_in_char)) as u8;
            }
            data.num_bits = nominal_num_bits;
            proof {
                lemma_value_from_bits(bits, offset, nominal_num_bits as int, data.value);
                assert(data == decoded_fields(fields, label)[index as int]);
            }
            encodable_data[index] = data;
            index += 1;
        }
        proof {
            assert(encodable_data@ =~= decoded_fields(fields, label));
            lemma_same_widths_total(encodable_data@, fields);
        }
        Ok(())
    }
}

} // verus!
