use amazon_cloudfront_client_routing_lib::client_routing_label::{
    ClientRoutingLabel, EncodableData,
};
use amazon_cloudfront_client_routing_lib::encode_decode::Base32;
use amazon_cloudfront_client_routing_lib::ip::ClientSubnetEncodingData;

#[test]
fn default_label_has_the_version_and_the_widths() {
    let mut client_routing_label = ClientRoutingLabel::default();

    let widths: Vec<u8> = client_routing_label
        .encodable_data
        .iter()
        .map(|data| data.num_bits)
        .collect();
    let values: Vec<u64> = client_routing_label
        .encodable_data
        .iter()
        .map(|data| data.value)
        .collect();
    assert_eq!(vec![10, 1, 64, 6, 64], widths);
    assert_eq!(vec![1, 0, 0, 0, 0], values);
    assert_eq!(145, client_routing_label.get_total_num_bits());
    assert_eq!(
        "abaaaaaaaaaaaaaaaaaaaaaaaaaaa",
        client_routing_label.encode()
    );
}

#[test]
fn set_data_sets_four_values_and_keeps_the_rest() {
    let mut client_routing_label = ClientRoutingLabel::default();
    client_routing_label.set_data(
        ClientSubnetEncodingData {
            is_ipv6: 1,
            client_subnet: 9340004030419828736,
            subnet_mask: 48,
        },
        8517775255794402596,
    );

    let widths: Vec<u8> = client_routing_label
        .encodable_data
        .iter()
        .map(|data| data.num_bits)
        .collect();
    let values: Vec<u64> = client_routing_label
        .encodable_data
        .iter()
        .map(|data| data.value)
        .collect();
    assert_eq!(vec![10, 1, 64, 6, 64], widths);
    assert_eq!(
        vec![1, 1, 9340004030419828736, 48, 8517775255794402596],
        values
    );
}

#[test]
fn label_encodes_a_known_record() {
    let mut client_routing_label = ClientRoutingLabel::default();
    client_routing_label.set_data(
        ClientSubnetEncodingData {
            is_ipv6: 0,
            client_subnet: 6148494311290830848,
            subnet_mask: 24,
        },
        8517775255794402596,
    );

    assert_eq!(
        "abfku6xaaaaaaaamhmnjxo5hdzrje",
        client_routing_label.encode()
    );
}

#[test]
fn label_of_the_subnet_1_2_3() {
    let mut client_routing_label = ClientRoutingLabel::default();
    client_routing_label.set_data(
        ClientSubnetEncodingData {
            is_ipv6: 0,
            client_subnet: u64::from_be_bytes([1, 2, 3, 0, 0, 0, 0, 0]),
            subnet_mask: 24,
        },
        8517775255794402596,
    );

    assert_eq!(
        "abacaqdaaaaaaaamhmnjxo5hdzrje",
        client_routing_label.encode()
    );
}

#[test]
fn encoding_leaves_the_label_as_it_was() {
    let mut client_routing_label = ClientRoutingLabel::default();
    client_routing_label.set_data(
        ClientSubnetEncodingData {
            is_ipv6: 1,
            client_subnet: 9340004030419828736,
            subnet_mask: 48,
        },
        12253709671023643154,
    );

    let first = client_routing_label.encode();
    let second = client_routing_label.encode();
    assert_eq!("abydhs4fyq6iaaaykudpmaxncecqs", first);
    assert_eq!(first, second);
    assert_eq!(1, client_routing_label.encodable_data[0].value);
    assert_eq!(10, client_routing_label.encodable_data[0].num_bits);
    assert_eq!(145, client_routing_label.get_total_num_bits());
}

#[test]
fn label_decodes_a_known_text() {
    let mut client_routing_label = ClientRoutingLabel::default();

    match client_routing_label.decode(b"abfku6xaaaaaaaamhmnjxo5hdzrje") {
        Ok(decoded_client_routing_label) => {
            assert_eq!(1, decoded_client_routing_label.client_sdk_version);
            assert_eq!(false, decoded_client_routing_label.is_ipv6);
            assert_eq!(
                [85, 83, 215, 0, 0, 0, 0, 0],
                decoded_client_routing_label.client_subnet
            );
            assert_eq!(24, decoded_client_routing_label.subnet_mask);
            assert_eq!(8517775255794402596, decoded_client_routing_label.cgid);
        }
        Err(_e) => panic!("Decoding experienced an error when it shouldn't have"),
    };
    assert_eq!(
        6148494311290830848,
        client_routing_label.encodable_data[2].value
    );
    assert_eq!(64, client_routing_label.encodable_data[2].num_bits);
}

#[test]
fn label_of_33_characters_is_refused() {
    let mut client_routing_label = ClientRoutingLabel::default();

    match client_routing_label.decode(b"abfku6xaaaaaaaamhmnjxo5hdzrjeaaaa") {
        Ok(_) => panic!("Decoded a label of the wrong length"),
        Err(e) => {
            assert_eq!(33, e.num_chars);
            assert_eq!(29, e.expected_num_chars);
            assert_eq!("Passed 33 - expected 29 characters", e.to_string());
        }
    };
    assert_eq!(1, client_routing_label.encodable_data[0].value);
}

#[test]
fn label_round_trip_cuts_values_to_their_widths() {
    let mut client_routing_label = ClientRoutingLabel::default();
    client_routing_label.encodable_data[0].value = 1024 + 5;
    client_routing_label.set_data(
        ClientSubnetEncodingData {
            is_ipv6: 3,
            client_subnet: u64::MAX,
            subnet_mask: 64 + 48,
        },
        u64::MAX - 1,
    );
    let text = client_routing_label.encode();

    let mut decoder = ClientRoutingLabel::default();
    let record = match decoder.decode(text.as_bytes()) {
        Ok(record) => record,
        Err(e) => panic!("{}", e.to_string()),
    };
    assert_eq!(5, record.client_sdk_version);
    assert_eq!(true, record.is_ipv6);
    assert_eq!([255; 8], record.client_subnet);
    assert_eq!(48, record.subnet_mask);
    assert_eq!(u64::MAX - 1, record.cgid);
}

#[test]
fn record_of_the_fields() {
    let mut client_routing_label = ClientRoutingLabel {
        encodable_data: [
            EncodableData {
                value: 0x1_0002,
                num_bits: 10,
            },
            EncodableData {
                value: 2,
                num_bits: 1,
            },
            EncodableData {
                value: 0x0102_0304_0506_0708,
                num_bits: 64,
            },
            EncodableData {
                value: 0x1ff,
                num_bits: 6,
            },
            EncodableData {
                value: 7,
                num_bits: 64,
            },
        ],
        encoding_system: Base32 {},
    };

    let record = client_routing_label.get_decoded_client_routing_label();
    assert_eq!(2, record.client_sdk_version);
    assert_eq!(true, record.is_ipv6);
    assert_eq!([1, 2, 3, 4, 5, 6, 7, 8], record.client_subnet);
    assert_eq!(0xff, record.subnet_mask);
    assert_eq!(7, record.cgid);
}
