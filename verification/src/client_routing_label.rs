//! The fields of a client routing label and the record they make up.

use vstd::prelude::*;
use vstd::utf8::encode_utf8;
use crate::bitstream::{
    decoded_fields, encoded_label, field_offset, label_text, lemma_field_offset_step,
    lemma_same_widths_total, symbol_count, total_bits,
};
use crate::bitwise::{
    bit_at, get_mask, lemma_low_mask_values, lemma_masked_below, lemma_masked_bit,
    lemma_shift_right_bit, low_mask, shift_right,
};
use crate::encode_decode::Base32;
use crate::errors::DecodeLengthError;
use crate::ip::ClientSubnetEncodingData;

verus! {

/// The version of the label's layout, which the first field of every label
/// holds.
pub const CLIENT_ROUTING_LABEL_VERSION: u16 = 1;

/// The width of the version field, in bits.
pub const VERSION_NUM_BITS: u8 = 10;

/// The width of the field that tells IPv6 from IPv4, in bits.
pub const IS_IPV6_NUM_BITS: u8 = 1;

/// The width of the client subnet field, in bits.
pub const CLIENT_SUBNET_NUM_BITS: u8 = 64;

/// The width of the subnet mask field, in bits.
pub const SUBNET_MASK_NUM_BITS: u8 = 6;

/// The width of the content group field, in bits.
pub const CGID_NUM_BITS: u8 = 64;

/// What a label says, each value in the type that fits it.
#[derive(Copy, Clone, Debug)]
pub struct DecodedClientRoutingLabel {
    pub client_sdk_version: u16,
    pub is_ipv6: bool,
    pub client_subnet: [u8; 8],
    pub subnet_mask: u8,
    pub cgid: u64,
}

/// One field of a label: a value and the number of bits it takes in the
/// label. Of a value that needs more bits than `num_bits`, the low `num_bits`
/// bits are encoded.
///
/// While a field is encoded or decoded, `num_bits` counts the bits that are
/// still to be taken from it or put into it.
#[derive(Copy, Clone, Debug)]
pub struct EncodableData {
    pub value: u64,
    pub num_bits: u8,
}

/// The bits that `get_next_bits_to_encode` takes from a field of `num_bits`
/// bits when asked for `num_bits_needed`: the highest `num_bits_needed` of
/// the field's low `num_bits` bits, as a number.
pub open spec fn front_bits(value: u64, num_bits: nat, num_bits_needed: nat) -> u64 {
    shift_right(value, (num_bits - num_bits_needed) as nat) & low_mask(num_bits_needed)
}

impl EncodableData {
    /// Takes the next `num_bits_needed` bits from the front of the field, the
    /// most significant end of what is left of it, and returns them as a
    /// number. The field keeps the bits below them. A result of more than 8
    /// bits is cut to its low 8 bits.
    pub fn get_next_bits_to_encode(&mut self, num_bits_needed: u8) -> (bits: u8)
        requires
            num_bits_needed <= old(self).num_bits,
        ensures
            final(self).num_bits == old(self).num_bits - num_bits_needed,
            final(self).value == old(self).value & low_mask(final(self).num_bits as nat),
            bits == front_bits(
                old(self).value,
                old(self).num_bits as nat,
                num_bits_needed as nat,
            ) as u8,
    {
        self.num_bits -= num_bits_needed;
        let shifted: u64 = if self.num_bits >= 64 {
            0
        } else {
            self.value >> (self.num_bits as u64)
        };
        let front: u64 = shifted & get_mask(num_bits_needed);
        self.value = self.value & get_mask(self.num_bits);
        #[verifier::truncate]
        (front as u8)
    }

    /// Whether the field still holds `num_bits_in_char` bits or more.
    pub fn has_bits_for_char(self, num_bits_in_char: u8) -> (enough: bool)
        ensures
            enough == (self.num_bits >= num_bits_in_char),
    {
        self.num_bits >= num_bits_in_char
    }

    /// Puts `num_bits_to_add` more bits into the field: the value moves left
    /// by that many places and `value_to_add` fills the places made free.
    /// `num_bits` goes down by `num_bits_to_add`.
    pub fn add_bits(&mut self, num_bits_to_add: u8, value_to_add: u8)
        requires
            num_bits_to_add <= old(self).num_bits,
            num_bits_to_add < 64,
        ensures
            final(self).num_bits == old(self).num_bits - num_bits_to_add,
            final(self).value == (old(self).value << (num_bits_to_add as u64)) | (
            value_to_add as u64),
    {
        self.num_bits -= num_bits_to_add;
        self.value = (self.value << (num_bits_to_add as u64)) | (value_to_add as u64);
    }
}

/// The bits of what `get_next_bits_to_encode` takes: bit `index` of the
/// result is bit `index` above the bits that stay in the field.
pub proof fn lemma_front_bits_bit(value: u64, num_bits: nat, num_bits_needed: nat, index: int)
    requires
        num_bits_needed <= num_bits,
    ensures
        bit_at(front_bits(value, num_bits, num_bits_needed), index) == (0 <= index
            < num_bits_needed && bit_at(value, num_bits - num_bits_needed + index)),
{
    let rest = (num_bits - num_bits_needed) as nat;
    lemma_masked_bit(shift_right(value, rest), num_bits_needed, index);
    lemma_shift_right_bit(value, rest, index);
}

/// Up to eight bits taken from a field fit in the byte that is returned, and
/// up to five make a symbol.
pub proof fn lemma_front_bits_fit(value: u64, num_bits: nat, num_bits_needed: nat)
    requires
        num_bits_needed <= num_bits,
        num_bits_needed <= 8,
    ensures
        front_bits(value, num_bits, num_bits_needed) <= 255,
        front_bits(value, num_bits, num_bits_needed) as u8 as u64 == front_bits(
            value,
            num_bits,
            num_bits_needed,
        ),
        num_bits_needed <= 5 ==> front_bits(value, num_bits, num_bits_needed) <= 31,
{
    let rest = (num_bits - num_bits_needed) as nat;
    lemma_low_mask_values();
    lemma_masked_below(shift_right(value, rest), num_bits_needed, 8);
    if num_bits_needed <= 5 {
        lemma_masked_below(shift_right(value, rest), num_bits_needed, 5);
    }
}

/// The five fields of a label and the way they are written as text.
///
/// The fields are, in this order, the version (10 bits), whether the address
/// is IPv6 (1 bit), the client's subnet (64 bits), the subnet mask (6 bits)
/// and the content group's hash (64 bits): 145 bits, which make 29
/// characters.
#[derive(Copy, Clone, Debug)]
pub struct ClientRoutingLabel {
    pub encodable_data: [EncodableData; 5],
    pub encoding_system: Base32,
}

/// The fields of a label with the given values, each with its width.
pub open spec fn label_fields(
    version: u64,
    is_ipv6: u64,
    client_subnet: u64,
    subnet_mask: u64,
    cgid: u64,
) -> Seq<EncodableData> {
    seq![
        EncodableData { value: version, num_bits: VERSION_NUM_BITS },
        EncodableData { value: is_ipv6, num_bits: IS_IPV6_NUM_BITS },
        EncodableData { value: client_subnet, num_bits: CLIENT_SUBNET_NUM_BITS },
        EncodableData { value: subnet_mask, num_bits: SUBNET_MASK_NUM_BITS },
        EncodableData { value: cgid, num_bits: CGID_NUM_BITS },
    ]
}

/// Whether the fields are those of a label: five fields of 10, 1, 64, 6 and
/// 64 bits.
pub open spec fn is_label(fields: Seq<EncodableData>) -> bool {
    fields == label_fields(
        fields[0].value,
        fields[1].value,
        fields[2].value,
        fields[3].value,
        fields[4].value,
    )
}

/// The fields of a label are 145 bits wide together, which take 29
/// characters.
pub proof fn lemma_label_total_bits(fields: Seq<EncodableData>)
    requires
        is_label(fields),
    ensures
        total_bits(fields) == 145,
        symbol_count(total_bits(fields)) == 29,
{
    let four = fields.drop_last();
    let three = four.drop_last();
    let two = three.drop_last();
    let one = two.drop_last();
    assert(total_bits(one.drop_last()) == 0);
    assert(one.last() == fields[0]);
    assert(total_bits(one) == 10);
    assert(total_bits(two) == 11);
    assert(total_bits(three) == 75);
    assert(total_bits(four) == 81);
}

/// The eight bytes of a value, the most significant first.
pub open spec fn big_endian_bytes(value: u64) -> Seq<u8> {
    seq![
        (value >> 56u64) as u8,
        (value >> 48u64) as u8,
        (value >> 40u64) as u8,
        (value >> 32u64) as u8,
        (value >> 24u64) as u8,
        (value >> 16u64) as u8,
        (value >> 8u64) as u8,
        value as u8,
    ]
}

/// Whether `record` is what five fields say: the version cut to 16 bits, the
/// address family as a truth value, the subnet as its eight bytes, the mask
/// cut to 8 bits, and the hash.
pub open spec fn is_record_of(
    record: DecodedClientRoutingLabel,
    fields: Seq<EncodableData>,
) -> bool {
    &&& record.client_sdk_version == fields[0].value as u16
    &&& record.is_ipv6 == (fields[1].value != 0)
    &&& record.client_subnet@ == big_endian_bytes(fields[2].value)
    &&& record.subnet_mask == fields[3].value as u8
    &&& record.cgid == fields[4].value
}

impl Default for ClientRoutingLabel {
    /// A label of the current version with every other value zero.
    fn default() -> (label: Self)
        ensures
            label.encodable_data@ == label_fields(1, 0, 0, 0, 0),
            label.has_label_widths(),
            total_bits(label.encodable_data@) == 145,
    {
        let sdk_version = EncodableData {
            value: CLIENT_ROUTING_LABEL_VERSION as u64,
            num_bits: VERSION_NUM_BITS,
        };
        let is_ipv6 = EncodableData { value: 0, num_bits: IS_IPV6_NUM_BITS };
        let client_subnet = EncodableData { value: 0, num_bits: CLIENT_SUBNET_NUM_BITS };
        let subnet_mask = EncodableData { value: 0, num_bits: SUBNET_MASK_NUM_BITS };
        let cgid = EncodableData { value: 0, num_bits: CGID_NUM_BITS };
        let label = Self {
            encodable_data: [sdk_version, is_ipv6, client_subnet, subnet_mask, cgid],
            encoding_system: Base32 {  },
        };
        proof {
            assert(label.encodable_data@ =~= label_fields(1, 0, 0, 0, 0));
            lemma_label_total_bits(label.encodable_data@);
        }
        label
    }
}

impl ClientRoutingLabel {
    /// Whether the fields have the widths of a label: 10, 1, 64, 6 and 64
    /// bits.
    pub open spec fn has_label_widths(&self) -> bool {
        is_label(self.encodable_data@)
    }

    /// Sets the values that describe the client's subnet and the content
    /// group. The version and all widths stay.
    pub fn set_data(&mut self, client_subnet_encoding_data: ClientSubnetEncodingData, cgid: u64)
        ensures
            final(self).encodable_data@[0] == old(self).encodable_data@[0],
            final(self).encodable_data@[1] == (EncodableData {
                value: client_subnet_encoding_data.is_ipv6,
                num_bits: old(self).encodable_data@[1].num_bits,
            }),
            final(self).encodable_data@[2] == (EncodableData {
                value: client_subnet_encoding_data.client_subnet,
                num_bits: old(self).encodable_data@[2].num_bits,
            }),
            final(self).encodable_data@[3] == (EncodableData {
                value: client_subnet_encoding_data.subnet_mask,
                num_bits: old(self).encodable_data@[3].num_bits,
            }),
            final(self).encodable_data@[4] == (EncodableData {
                value: cgid,
                num_bits: old(self).encodable_data@[4].num_bits,
            }),
            old(self).has_label_widths() ==> final(self).encodable_data@ == label_fields(
                old(self).encodable_data@[0].value,
                client_subnet_encoding_data.is_ipv6,
                client_subnet_encoding_data.client_subnet,
                client_subnet_encoding_data.subnet_mask,
                cgid,
            ),
            total_bits(final(self).encodable_data@) == total_bits(old(self).encodable_data@),
            final(self).encoding_system == old(self).encoding_system,
    {
        self.encodable_data[1].value = client_subnet_encoding_data.is_ipv6;
        self.encodable_data[2].value = client_subnet_encoding_data.client_subnet;
        self.encodable_data[3].value = client_subnet_encoding_data.subnet_mask;
        self.encodable_data[4].value = cgid;
        proof {
            lemma_same_widths_total(self.encodable_data@, old(self).encodable_data@);
            if old(self).has_label_widths() {
                assert(self.encodable_data@ =~= label_fields(
                    old(self).encodable_data@[0].value,
                    client_subnet_encoding_data.is_ipv6,
                    client_subnet_encoding_data.client_subnet,
                    client_subnet_encoding_data.subnet_mask,
                    cgid,
                ));
            }
        }
    }

    /// Returns the fields as a label. The fields are left as they were.
    pub fn encode(&mut self) -> (label: String)
        ensures
            label@ == label_text(encoded_label(old(self).encodable_data@)),
            encode_utf8(label@) == encoded_label(old(self).encodable_data@),
            label@.len() == symbol_count(total_bits(old(self).encodable_data@)),
            old(self).has_label_widths() ==> label@.len() == 29,
            final(self).encodable_data@ == old(self).encodable_data@,
            final(self).encoding_system == old(self).encoding_system,
    {
        proof {
            if self.has_label_widths() {
                lemma_label_total_bits(self.encodable_data@);
            }
        }
        self.encoding_system.encode(&mut self.encodable_data)
    }

    /// Decodes a label into the fields and returns what it says. A label
    /// that does not have the length of the fields' widths is refused, and
    /// the fields stay as they are.
    pub fn decode(&mut self, client_routing_label: &[u8]) -> (result: Result<
        DecodedClientRoutingLabel,
        DecodeLengthError,
    >)
        requires
            total_bits(old(self).encodable_data@) <= u8::MAX,
        ensures
            result is Ok <==> client_routing_label@.len() == symbol_count(
                total_bits(old(self).encodable_data@),
            ),
            result matches Ok(record) ==> final(self).encodable_data@ == decoded_fields(
                old(self).encodable_data@,
                client_routing_label@,
            ) && is_record_of(record, final(self).encodable_data@),
            result matches Err(e) ==> e.num_chars == client_routing_label@.len()
                && e.expected_num_chars == symbol_count(total_bits(old(self).encodable_data@))
                && final(self).encodable_data@ == old(self).encodable_data@,
            old(self).has_label_widths() ==> final(self).has_label_widths() && (result is Ok
                <==> client_routing_label@.len() == 29),
            total_bits(final(self).encodable_data@) == total_bits(old(self).encodable_data@),
            final(self).encoding_system == old(self).encoding_system,
    {
        proof {
            if self.has_label_widths() {
                lemma_label_total_bits(self.encodable_data@);
            }
        }
        let total_num_bits = self.get_total_num_bits();
        let decoded_label = self.encoding_system.decode(
            &mut self.encodable_data,
            client_routing_label,
            total_num_bits,
        );
        proof {
            lemma_same_widths_total(self.encodable_data@, old(self).encodable_data@);
            if old(self).has_label_widths() {
                let fields = self.encodable_data@;
                assert(fields =~= label_fields(
                    fields[0].value,
                    fields[1].value,
                    fields[2].value,
                    fields[3].value,
                    fields[4].value,
                ));
            }
        }
        match decoded_label {
            Ok(_value) => Ok(self.get_decoded_client_routing_label()),
            Err(e) => Err(e),
        }
    }

    /// Returns the sum of the fields' widths.
    pub fn get_total_num_bits(&mut self) -> (total_num_bits: u8)
        requires
            total_bits(old(self).encodable_data@) <= u8::MAX,
        ensures
            total_num_bits == total_bits(old(self).encodable_data@),
            old(self).has_label_widths() ==> total_num_bits == 145,
            final(self).encodable_data@ == old(self).encodable_data@,
            final(self).encoding_system == old(self).encoding_system,
    {
        let ghost fields = self.encodable_data@;
        proof {
            if self.has_label_widths() {
                lemma_label_total_bits(self.encodable_data@);
            }
        }
        let mut total_num_bits: u8 = 0;
        let mut index: usize = 0;
        proof {
            assert(fields.take(0) =~= Seq::<EncodableData>::empty());
        }
        while index < 5
            invariant
                index <= 5,
                fields.len() == 5,
                self.encodable_data@ == fields,
                total_bits(fields) <= u8::MAX,
                total_num_bits == field_offset(fields, index as int),
            decreases 5 - index,
        {
            proof {
                lemma_field_offset_step(fields, index as int);
            }
            total_num_bits = total_num_bits + self.encodable_data[index].num_bits;
            index += 1;
        }
        proof {
            assert(fields.take(5) =~= fields);
        }
        total_num_bits
    }

    /// Returns what the fields say, each value in the type that fits it.
    pub fn get_decoded_client_routing_label(&mut self) -> (record: DecodedClientRoutingLabel)
        ensures
            is_record_of(record, old(self).encodable_data@),
            final(self).encodable_data@ == old(self).encodable_data@,
            final(self).encoding_system == old(self).encoding_system,
    {
        let subnet: u64 = self.encodable_data[2].value;
        let record = DecodedClientRoutingLabel {
            client_sdk_version: #[verifier::truncate] (self.encodable_data[0].value as u16),
            is_ipv6: self.encodable_data[1].value != 0,
            client_subnet: [
                #[verifier::truncate] ((subnet >> 56) as u8),
                #[verifier::truncate] ((subnet >> 48) as u8),
                #[verifier::truncate] ((subnet >> 40) as u8),
                #[verifier::truncate] ((subnet >> 32) as u8),
                #[verifier::truncate] ((subnet >> 24) as u8),
                #[verifier::truncate] ((subnet >> 16) as u8),
                #[verifier::truncate] ((subnet >> 8) as u8),
                #[verifier::truncate] (subnet as u8),
            ],
            subnet_mask: #[verifier::truncate] (self.encodable_data[3].value as u8),
            cgid: self.encodable_data[4].value,
        };
        assert(record.client_subnet@ =~= big_endian_bytes(subnet));
        record
    }
}

} // verus!
