//! What holds of encoding and decoding together.

use vstd::prelude::*;
use vstd::utf8::{encode_utf8, is_ascii_chars_encode_utf8};
use crate::bitstream::{
    bit_stream, decoded_fields, decoded_value, encoded_label, field_bits, field_offset,
    in_alphabet, label_bits, label_text, lemma_bit_stream_len, lemma_encoded_label_bits,
    lemma_encoded_label_in_alphabet, lemma_encoded_label_text, lemma_field_offset_step,
    lemma_same_widths_offset, lemma_stream_bit, lemma_value_of_bits_of, same_widths,
    symbol_count, symbol_value, total_bits,
};
use crate::bitwise::{lemma_masked_bit, low_mask};
use crate::client_routing_label::{
    big_endian_bytes, is_label, is_record_of, label_fields, lemma_label_total_bits,
    DecodedClientRoutingLabel, EncodableData,
};
use crate::hash::cgid_hash;
use crate::ip::{subnet_data, ClientIp};
use crate::{lemma_first_label_len, request_fields, routing_label};

verus! {

/// A field with its value cut to the field's width.
pub open spec fn truncated(field: EncodableData) -> EncodableData {
    EncodableData {
        value: field.value & low_mask(field.num_bits as nat),
        num_bits: field.num_bits,
    }
}

/// Whether a field's value needs no more bits than the field is wide.
pub open spec fn fits(field: EncodableData) -> bool {
    field.value & low_mask(field.num_bits as nat) == field.value
}

/// The fields with each value cut to its field's width.
pub open spec fn truncated_fields(fields: Seq<EncodableData>) -> Seq<EncodableData> {
    Seq::new(fields.len(), |index: int| truncated(fields[index]))
}

/// Decoding what was encoded gives each field its value back, cut to the
/// field's width. The fields that the label is decoded into need only have
/// the widths of the fields that were encoded; their values do not count.
pub proof fn lemma_decode_encoded(
    fields: Seq<EncodableData>,
    schema: Seq<EncodableData>,
    index: int,
)
    requires
        same_widths(schema, fields),
        0 <= index < fields.len(),
    ensures
        decoded_value(schema, encoded_label(fields), index) == fields[index].value & low_mask(
            fields[index].num_bits as nat,
        ),
{
    let label = encoded_label(fields);
    let stream = bit_stream(fields);
    let offset = field_offset(fields, index) as int;
    let width = fields[index].num_bits as int;
    lemma_same_widths_offset(schema, fields, index);
    lemma_field_offset_step(fields, index);
    lemma_bit_stream_len(fields);
    let part = label_bits(label).subrange(offset, offset + width);
    assert forall|place: int| 0 <= place < width implies part[place] == field_bits(
        fields[index],
    )[place] by {
        lemma_encoded_label_bits(fields, offset + place);
        lemma_stream_bit(fields, index, place);
    }
    assert(part =~= field_bits(fields[index]));
    lemma_value_of_bits_of(fields[index].value, fields[index].num_bits as nat);
}

/// Encoding and then decoding gives the fields back, each value cut to its
/// width: so fields whose values fit their widths come back as they were.
pub proof fn lemma_round_trip(fields: Seq<EncodableData>, schema: Seq<EncodableData>)
    requires
        same_widths(schema, fields),
    ensures
        decoded_fields(schema, encoded_label(fields)) == truncated_fields(fields),
        (forall|index: int| 0 <= index < fields.len() ==> fits(#[trigger] fields[index]))
            ==> decoded_fields(schema, encoded_label(fields)) == fields,
{
    assert forall|index: int| 0 <= index < fields.len() implies decoded_fields(
        schema,
        encoded_label(fields),
    )[index] == truncated_fields(fields)[index] by {
        lemma_decode_encoded(fields, schema, index);
    }
    assert(decoded_fields(schema, encoded_label(fields)) =~= truncated_fields(fields));
    if forall|index: int| 0 <= index < fields.len() ==> fits(#[trigger] fields[index]) {
        assert(truncated_fields(fields) =~= fields);
    }
}

/// Fields of the same widths that encode to the same label hold the same
/// values, as far as the widths go.
pub proof fn lemma_encode_injective(first: Seq<EncodableData>, second: Seq<EncodableData>)
    requires
        same_widths(first, second),
        encoded_label(first) == encoded_label(second),
    ensures
        truncated_fields(first) == truncated_fields(second),
{
    lemma_round_trip(first, first);
    lemma_round_trip(second, first);
}

/// Cutting the values to their widths changes neither the bits of the
/// fields nor their number.
proof fn lemma_truncated_stream(fields: Seq<EncodableData>)
    ensures
        bit_stream(truncated_fields(fields)) == bit_stream(fields),
        total_bits(truncated_fields(fields)) == total_bits(fields),
    decreases fields.len(),
{
    let cut = truncated_fields(fields);
    if fields.len() > 0 {
        lemma_truncated_stream(fields.drop_last());
        assert(cut.drop_last() =~= truncated_fields(fields.drop_last()));
        let last = fields.last();
        assert forall|place: int| 0 <= place < last.num_bits implies field_bits(
            truncated(last),
        )[place] == field_bits(last)[place] by {
            lemma_masked_bit(last.value, last.num_bits as nat, last.num_bits - 1 - place);
        }
        assert(field_bits(cut.last()) =~= field_bits(last));
    }
}

/// A value that is wider than its field is encoded as its low bits are: the
/// label is that of the fields with each value cut to its width.
pub proof fn lemma_encode_truncates(fields: Seq<EncodableData>)
    ensures
        encoded_label(fields) == encoded_label(truncated_fields(fields)),
{
    lemma_truncated_stream(fields);
    assert(encoded_label(fields) =~= encoded_label(truncated_fields(fields)));
}

/// An encoded label is as long as the fields' bits call for, and the bits
/// of its last character that stand behind the fields' last bit are zero.
pub proof fn lemma_encoded_padding(fields: Seq<EncodableData>, place: int)
    requires
        total_bits(fields) <= place < 5 * symbol_count(total_bits(fields)),
    ensures
        encoded_label(fields).len() == symbol_count(total_bits(fields)),
        5 * symbol_count(total_bits(fields)) - total_bits(fields) < 5,
        !label_bits(encoded_label(fields))[place],
{
    lemma_encoded_label_bits(fields, place);
}

/// Decoding looks at no bit behind the fields' last bit: two labels that
/// agree on the bits before it decode to the same values.
pub proof fn lemma_decode_ignores_padding(
    fields: Seq<EncodableData>,
    first: Seq<u8>,
    second: Seq<u8>,
)
    requires
        total_bits(fields) <= 5 * first.len(),
        total_bits(fields) <= 5 * second.len(),
        label_bits(first).take(total_bits(fields) as int) == label_bits(second).take(
            total_bits(fields) as int,
        ),
    ensures
        decoded_fields(fields, first) == decoded_fields(fields, second),
{
    let total = total_bits(fields) as int;
    assert forall|index: int| 0 <= index < fields.len() implies decoded_value(fields, first, index)
        == decoded_value(fields, second, index) by {
        lemma_field_offset_step(fields, index);
        let start = field_offset(fields, index) as int;
        let end = start + fields[index].num_bits;
        assert(label_bits(first).subrange(start, end) =~= label_bits(first).take(total).subrange(
            start,
            end,
        ));
        assert(label_bits(second).subrange(start, end) =~= label_bits(second).take(
            total,
        ).subrange(start, end));
    }
    assert(decoded_fields(fields, first) =~= decoded_fields(fields, second));
}

/// A byte that is not in the alphabet decodes as `a` does: putting either
/// at a place of a label gives labels that decode to the same values.
pub proof fn lemma_decode_is_lenient(
    fields: Seq<EncodableData>,
    label: Seq<u8>,
    position: int,
    byte: u8,
)
    requires
        0 <= position < label.len(),
        !in_alphabet(byte),
    ensures
        symbol_value(byte) == 0,
        decoded_fields(fields, label.update(position, byte)) == decoded_fields(
            fields,
            label.update(position, 'a' as u8),
        ),
{
    assert(label_bits(label.update(position, byte)) =~= label_bits(
        label.update(position, 'a' as u8),
    ));
}

/// What comes back of a label's five values when the label is encoded and
/// decoded again: the low 10 bits of the version, the lowest bit of the
/// address family, the low 6 bits of the subnet mask, and the subnet and the
/// hash as they were.
pub proof fn lemma_label_round_trip(
    fields: Seq<EncodableData>,
    schema: Seq<EncodableData>,
    record: DecodedClientRoutingLabel,
)
    requires
        is_label(fields),
        same_widths(schema, fields),
        is_record_of(record, decoded_fields(schema, encoded_label(fields))),
    ensures
        record.client_sdk_version == fields[0].value % 1024,
        record.is_ipv6 == (fields[1].value % 2 == 1),
        record.client_subnet@ == big_endian_bytes(fields[2].value),
        record.subnet_mask == fields[3].value % 64,
        record.cgid == fields[4].value,
{
    lemma_round_trip(fields, schema);
    let version = fields[0].value;
    let is_ipv6 = fields[1].value;
    let client_subnet = fields[2].value;
    let subnet_mask = fields[3].value;
    let cgid = fields[4].value;
    assert(truncated_fields(fields)[0].value == version & low_mask(10));
    assert(truncated_fields(fields)[1].value == is_ipv6 & low_mask(1));
    assert(truncated_fields(fields)[2].value == client_subnet & low_mask(64));
    assert(truncated_fields(fields)[3].value == subnet_mask & low_mask(6));
    assert(truncated_fields(fields)[4].value == cgid & low_mask(64));
    assert((version & (((1u64 << 10u64) - 1) as u64)) as u16 == version % 1024) by (bit_vector);
    assert(((is_ipv6 & (((1u64 << 1u64) - 1) as u64)) != 0) == (is_ipv6 % 2 == 1))
        by (bit_vector);
    assert((subnet_mask & (((1u64 << 6u64) - 1) as u64)) as u8 == subnet_mask % 64)
        by (bit_vector);
    assert(client_subnet & 0xffff_ffff_ffff_ffffu64 == client_subnet) by (bit_vector);
    assert(cgid & 0xffff_ffff_ffff_ffffu64 == cgid) by (bit_vector);
}

/// The bytes of two texts, one after the other, are the bytes of the one
/// followed by the bytes of the other.
proof fn lemma_encode_utf8_concat(first: Seq<char>, second: Seq<char>)
    ensures
        encode_utf8(first + second) == encode_utf8(first) + encode_utf8(second),
    decreases first.len(),
{
    if first.len() == 0 {
        assert(first + second =~= second);
        assert(encode_utf8(first) + encode_utf8(second) =~= encode_utf8(second));
    } else {
        lemma_encode_utf8_concat(first.drop_first(), second);
        assert((first + second).drop_first() =~= first.drop_first() + second);
        assert(encode_utf8(first + second) =~= encode_utf8(first) + encode_utf8(second));
    }
}

/// The domain name that is made for a request begins with the request's
/// label: decoding the domain name reads that label, whatever follows the
/// full stop.
pub proof fn lemma_request_label(client_ip: ClientIp, content_group_id: &str, fqdn: Seq<char>)
    ensures
        routing_label(
            encode_utf8(
                label_text(encoded_label(request_fields(client_ip, content_group_id))) + seq!['.']
                    + fqdn,
            ),
        ) == encoded_label(request_fields(client_ip, content_group_id)),
        encoded_label(request_fields(client_ip, content_group_id)).len() == 29,
{
    let fields = request_fields(client_ip, content_group_id);
    let label = encoded_label(fields);
    let stop = seq!['.'];
    let domain = encode_utf8(label_text(label) + stop + fqdn);
    lemma_label_total_bits(fields);
    lemma_encode_utf8_concat(label_text(label) + stop, fqdn);
    lemma_encode_utf8_concat(label_text(label), stop);
    lemma_encoded_label_text(fields);
    is_ascii_chars_encode_utf8(stop);
    assert(encode_utf8(stop)[0] == 46);
    assert(domain =~= label + encode_utf8(stop) + encode_utf8(fqdn));
    assert forall|j: int| 0 <= j < 29 implies domain[j] != 46 && in_alphabet(domain[j]) by {
        lemma_encoded_label_in_alphabet(fields, j);
    }
    lemma_first_label_len(domain, 29);
    assert(routing_label(domain) =~= label);
}

/// Decoding the domain name that is made for a request gives back what the
/// request's label holds: the version, the client's subnet with its mask and
/// address family, and the hash of the content group id.
pub proof fn lemma_request_round_trip(
    client_ip: ClientIp,
    content_group_id: &str,
    fqdn: Seq<char>,
    record: DecodedClientRoutingLabel,
)
    requires
        is_record_of(
            record,
            decoded_fields(
                label_fields(1, 0, 0, 0, 0),
                routing_label(
                    encode_utf8(
                        label_text(encoded_label(request_fields(client_ip, content_group_id)))
                            + seq!['.'] + fqdn,
                    ),
                ),
            ),
        ),
    ensures
        record.client_sdk_version == 1,
        record.is_ipv6 == (client_ip is V6),
        record.client_subnet@ == big_endian_bytes(subnet_data(client_ip).client_subnet),
        record.subnet_mask == subnet_data(client_ip).subnet_mask,
        record.cgid == cgid_hash(content_group_id),
{
    let fields = request_fields(client_ip, content_group_id);
    lemma_request_label(client_ip, content_group_id, fqdn);
    lemma_label_round_trip(fields, label_fields(1, 0, 0, 0, 0), record);
}

} // verus!
