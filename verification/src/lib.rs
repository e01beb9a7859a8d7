//! Client routing labels: a fixed record of bit fields packed into a
//! 29-character DNS label over a 32-symbol alphabet, and unpacked again.

pub mod bitstream;
pub mod bitwise;
pub mod client_routing_label;
pub mod encode_decode;
pub mod errors;
pub mod hash;
pub mod ip;
pub mod text;
pub mod theorems;

use vstd::prelude::*;
use vstd::string::{StringExecFns, StringSliceAdditionalSpecFns};
use crate::bitstream::{decoded_fields, encoded_label, label_text};
use crate::client_routing_label::{
    is_record_of, label_fields, ClientRoutingLabel,
    DecodedClientRoutingLabel, EncodableData,
};
use crate::errors::DecodeLengthError;
use crate::hash::{cgid_hash, hash_cgid};
use crate::ip::{parse_client_ip, subnet_data, ClientIp};

verus! {

/// The byte that separates the labels of a domain name: a full stop.
pub const LABEL_SEPARATOR: u8 = 46;

/// The fields of the label for a request: the current version, the client's
/// subnet and the hash of the content group id.
pub open spec fn request_fields(client_ip: ClientIp, content_group_id: &str) -> Seq<EncodableData> {
    label_fields(
        1,
        subnet_data(client_ip).is_ipv6,
        subnet_data(client_ip).client_subnet,
        subnet_data(client_ip).subnet_mask,
        cgid_hash(content_group_id),
    )
}

/// The number of bytes of a domain name that stand before its first full
/// stop: all of them where it has none.
pub open spec fn first_label_len(domain: Seq<u8>) -> nat
    decreases domain.len(),
{
    if domain.len() == 0 || domain[0] == LABEL_SEPARATOR {
        0
    } else {
        1 + first_label_len(domain.drop_first())
    }
}

/// A byte with an upper-case ASCII letter made lower case.
pub open spec fn lower_case(byte: u8) -> u8 {
    if 'A' as u8 <= byte <= 'Z' as u8 {
        (byte - 'A' as u8 + 'a' as u8) as u8
    } else {
        byte
    }
}

/// The first label of a domain name, in lower case: where a client routing
/// label stands.
pub open spec fn routing_label(domain: Seq<u8>) -> Seq<u8> {
    Seq::new(first_label_len(domain), |index: int| lower_case(domain[index]))
}

/// The first label ends at the first full stop, or at the end.
pub proof fn lemma_first_label_len(domain: Seq<u8>, end: int)
    requires
        0 <= end <= domain.len(),
        forall|j: int| 0 <= j < end ==> domain[j] != LABEL_SEPARATOR,
        end == domain.len() || domain[end] == LABEL_SEPARATOR,
    ensures
        first_label_len(domain) == end,
    decreases end,
{
    if end > 0 {
        let rest = domain.drop_first();
        assert forall|j: int| 0 <= j < end - 1 implies rest[j] != LABEL_SEPARATOR by {
            assert(rest[j] == domain[j + 1]);
        }
        lemma_first_label_len(rest, end - 1);
    }
}

fn to_lower_case(byte: u8) -> (lower: u8)
    ensures
        lower == lower_case(byte),
{
    if 'A' as u8 <= byte && byte <= 'Z' as u8 {
        byte - 'A' as u8 + 'a' as u8
    } else {
        byte
    }
}

/// Returns `fqdn` with the client routing label for the request in front of
/// it, as one more label: the label's 29 characters, a full stop, `fqdn`.
pub fn encode_request_data(client_ip: ClientIp, content_group_id: &str, fqdn: &str) -> (domain:
    String)
    ensures
        domain@ == label_text(encoded_label(request_fields(client_ip, content_group_id))) + seq![
            '.',
        ] + fqdn@,
{
    let client_subnet_encoding_data = parse_client_ip(client_ip);
    let mut label = ClientRoutingLabel::default();
    label.set_data(client_subnet_encoding_data, hash_cgid(content_group_id));
    assert(label.encodable_data@ =~= request_fields(client_ip, content_group_id));
    let mut domain = label.encode();
    domain.push('.');
    domain.append(fqdn);
    domain
}

/// Decodes the client routing label that a domain name begins with: the
/// bytes before the first full stop, or all of them, taken in lower case.
/// Where these are not 29 characters the error says how many they are.
pub fn decode_request_data(domain: &str) -> (result: Result<
    DecodedClientRoutingLabel,
    DecodeLengthError,
>)
    ensures
        result is Ok <==> routing_label(domain.spec_bytes()).len() == 29,
        result matches Ok(record) ==> is_record_of(
            record,
            decoded_fields(label_fields(1, 0, 0, 0, 0), routing_label(domain.spec_bytes())),
        ),
        result matches Err(e) ==> e.num_chars == routing_label(domain.spec_bytes()).len()
            && e.expected_num_chars == 29,
{
    let bytes = domain.as_bytes();
    let mut client_routing_label: Vec<u8> = Vec::new();
    let mut index: usize = 0;
    while index < bytes.len() && bytes[index] != LABEL_SEPARATOR
        invariant
            index <= bytes@.len(),
            forall|j: int| 0 <= j < index ==> bytes@[j] != LABEL_SEPARATOR,
            client_routing_label@.len() == index,
            forall|j: int| 0 <= j < index ==> client_routing_label@[j] == lower_case(bytes@[j]),
        decreases bytes@.len() - index,
    {
        client_routing_label.push(to_lower_case(bytes[index]));
        index += 1;
    }
    proof {
        lemma_first_label_len(bytes@, index as int);
        assert(client_routing_label@ =~= routing_label(bytes@));
    }
    let mut label = ClientRoutingLabel::default();
    label.decode(client_routing_label.as_slice())
}

} // verus!
