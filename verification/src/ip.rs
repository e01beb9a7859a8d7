//! From a client's address to the subnet that a label carries.

use vstd::prelude::*;

verus! {

/// The number of address bits that a label keeps of an IPv4 address.
pub const IPV4_SUBNET_MASK: u64 = 24;

/// The number of address bits that a label keeps of an IPv6 address.
pub const IPV6_SUBNET_MASK: u64 = 48;

/// What a label says of the client's address: the subnet, moved to the top
/// of 64 bits, the number of address bits kept, and 1 for IPv6, 0 for IPv4.
pub struct ClientSubnetEncodingData {
    pub client_subnet: u64,
    pub subnet_mask: u64,
    pub is_ipv6: u64,
}

/// A client's address as the octets that its text stands for, or the fact
/// that the text was no address.
#[derive(Copy, Clone, Debug)]
pub enum ClientIp {
    /// The four octets of an IPv4 address, in the order they are written.
    V4([u8; 4]),
    /// The sixteen octets of an IPv6 address, in the order they are written.
    V6([u8; 16]),
    /// The text could not be read as an address.
    Invalid,
}

/// The first three octets of an IPv4 address as the top 24 bits of 64.
pub open spec fn ipv4_subnet(octets: Seq<u8>) -> u64 {
    (octets[0] * 0x0100_0000_0000_0000 + octets[1] * 0x0001_0000_0000_0000 + octets[2]
        * 0x0000_0100_0000_0000) as u64
}

/// The first six octets of an IPv6 address as the top 48 bits of 64.
pub open spec fn ipv6_subnet(octets: Seq<u8>) -> u64 {
    (octets[0] * 0x0100_0000_0000_0000 + octets[1] * 0x0001_0000_0000_0000 + octets[2]
        * 0x0000_0100_0000_0000 + octets[3] * 0x0000_0001_0000_0000 + octets[4]
        * 0x0000_0000_0100_0000 + octets[5] * 0x0000_0000_0001_0000) as u64
}

/// The subnet data of an address: 24 bits of an IPv4 address, 48 of an IPv6
/// address, and all zero where the text was no address.
pub open spec fn subnet_data(client_ip: ClientIp) -> ClientSubnetEncodingData {
    match client_ip {
        ClientIp::V4(octets) => ClientSubnetEncodingData {
            client_subnet: ipv4_subnet(octets@),
            subnet_mask: IPV4_SUBNET_MASK,
            is_ipv6: 0,
        },
        ClientIp::V6(octets) => ClientSubnetEncodingData {
            client_subnet: ipv6_subnet(octets@),
            subnet_mask: IPV6_SUBNET_MASK,
            is_ipv6: 1,
        },
        ClientIp::Invalid => ClientSubnetEncodingData {
            client_subnet: 0,
            subnet_mask: 0,
            is_ipv6: 0,
        },
    }
}

proof fn lemma_place_octets(a: u8, b: u8, c: u8, d: u8, e: u8, f: u8)
    by (bit_vector)
    ensures
        ((a as u64) << 56u64) | ((b as u64) << 48u64) | ((c as u64) << 40u64) | ((d as u64)
            << 32u64) | ((e as u64) << 24u64) | ((f as u64) << 16u64) == a * 0x0100_0000_0000_0000
            + b * 0x0001_0000_0000_0000 + c * 0x0000_0100_0000_0000 + d * 0x0000_0001_0000_0000
            + e * 0x0000_0000_0100_0000 + f * 0x0000_0000_0001_0000,
        ((a as u64) << 56u64) | ((b as u64) << 48u64) | ((c as u64) << 40u64) == a
            * 0x0100_0000_0000_0000 + b * 0x0001_0000_0000_0000 + c * 0x0000_0100_0000_0000,
{
}

/// Returns what a label says of the client's address: of an IPv4 address
/// its first three octets and a mask of 24, of an IPv6 address its first six
/// octets and a mask of 48, the octets at the top of `client_subnet`. Where
/// the text was no address, everything is zero.
pub fn parse_client_ip(client_ip: ClientIp) -> (data: ClientSubnetEncodingData)
    ensures
        data == subnet_data(client_ip),
{
    match client_ip {
        ClientIp::V4(octets) => {
            proof {
                lemma_place_octets(octets[0], octets[1], octets[2], 0, 0, 0);
            }
            ClientSubnetEncodingData {
                client_subnet: ((octets[0] as u64) << 56) | ((octets[1] as u64) << 48) | ((
                octets[2] as u64) << 40),
                subnet_mask: IPV4_SUBNET_MASK,
                is_ipv6: 0,
            }
        },
        ClientIp::V6(octets) => {
            proof {
                lemma_place_octets(
                    octets[0],
                    octets[1],
                    octets[2],
                    octets[3],
                    octets[4],
                    octets[5],
                );
            }
            ClientSubnetEncodingData {
                client_subnet: ((octets[0] as u64) << 56) | ((octets[1] as u64) << 48) | ((
                octets[2] as u64) << 40) | ((octets[3] as u64) << 32) | ((octets[4] as u64) << 24)
                    | ((octets[5] as u64) << 16),
                subnet_mask: IPV6_SUBNET_MASK,
                is_ipv6: 1,
            }
        },
        ClientIp::Invalid => ClientSubnetEncodingData {
            client_subnet: 0,
            subnet_mask: 0,
            is_ipv6: 0,
        },
    }
}

} // verus!
