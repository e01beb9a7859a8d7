use amazon_cloudfront_client_routing_lib::encode_request_data;
use amazon_cloudfront_client_routing_lib::ip::ClientIp;

// 85.83.215.126
#[test]
fn validate_encode_with_ipv4() {
    let encoded_label = encode_request_data(
        ClientIp::V4([85, 83, 215, 126]),
        "B086VX9VMK",
        "example.com",
    );

    assert_eq!("abfku6xaaaaaaaamotptyubibrji6.example.com", encoded_label);
}

// 819e:5c2e:21e4:0094:4805:1635:f8e4:049b
#[test]
fn validate_encode_with_ipv6() {
    let encoded_label = encode_request_data(
        ClientIp::V6([
            0x81, 0x9e, 0x5c, 0x2e, 0x21, 0xe4, 0x00, 0x94, 0x48, 0x05, 0x16, 0x35, 0xf8, 0xe4,
            0x04, 0x9b,
        ]),
        "Q9OP1I23",
        "example.com",
    );

    assert_eq!("abydhs4fyq6iaaaykudpmaxncecqs.example.com", encoded_label);
}

// 2c0f:f386:9f5b:a3ad::
#[test]
fn validate_encode_with_abbreviated_ipv6() {
    let encoded_label = encode_request_data(
        ClientIp::V6([
            0x2c, 0x0f, 0xf3, 0x86, 0x9f, 0x5b, 0xa3, 0xad, 0, 0, 0, 0, 0, 0, 0, 0,
        ]),
        "ZZAA12TP",
        "example.com",
    );

    assert_eq!("absyd7tq2pvwaaayipu4qwb2rlz4g.example.com", encoded_label);
}

// 122.71.138.53
#[test]
fn validate_encode_with_subdomain_in_fqdn() {
    let encoded_label = encode_request_data(
        ClientIp::V4([122, 71, 138, 53]),
        "12PC5GH7Y0ABCDEFGHIJHJUIOZZAA1",
        "test.example2.com",
    );

    assert_eq!(
        "abhur4kaaaaaaaampbtn52pincn7x.test.example2.com",
        encoded_label
    );
}

// 0319:7db1:f4d6:62ec:10cf:ffe4:4270:d2d5
#[test]
fn validate_encode_with_path_in_fqdn() {
    let encoded_label = encode_request_data(
        ClientIp::V6([
            0x03, 0x19, 0x7d, 0xb1, 0xf4, 0xd6, 0x62, 0xec, 0x10, 0xcf, 0xff, 0xe4, 0x42, 0x70,
            0xd2, 0xd5,
        ]),
        "AC2Q2389",
        "example.com/movie/12ab4c?query=watch",
    );

    assert_eq!(
        "abqggl5wh2nmaaaypv4i33wdvvtdk.example.com/movie/12ab4c?query=watch",
        encoded_label
    );
}

// 122.71, which is no address
#[test]
fn validate_encode_with_invalid_client_ip() {
    let encoded_label = encode_request_data(ClientIp::Invalid, "DP0124QHYT", "example.com");

    assert_eq!("abaaaaaaaaaaaaaaoqysz2z3j45da.example.com", encoded_label);
}

// 46.3.3.135
#[test]
fn validate_encode_with_no_cgid() {
    let encoded_label = encode_request_data(ClientIp::V4([46, 3, 3, 135]), "", "example.com");

    assert_eq!("abc4aydaaaaaaaamaaaaaaaaaaaaa.example.com", encoded_label);
}

// 6687:1cc9:0e87:2b33:1181:eff2:9a6a:786b
#[test]
fn validate_encode_with_no_fqdn() {
    let encoded_label = encode_request_data(
        ClientIp::V6([
            0x66, 0x87, 0x1c, 0xc9, 0x0e, 0x87, 0x2b, 0x33, 0x11, 0x81, 0xef, 0xf2, 0x9a, 0x6a,
            0x78, 0x6b,
        ]),
        "DF97B6J1O0",
        "",
    );

    assert_eq!("abwnby4zehioaaaymv5p6exntn7z3.", encoded_label);
}

// An empty text, which is no address
#[test]
fn validate_encode_with_no_client_ip_no_cgid() {
    let encoded_label = encode_request_data(ClientIp::Invalid, "", "example.com");

    assert_eq!("abaaaaaaaaaaaaaaaaaaaaaaaaaaa.example.com", encoded_label);
}

// An empty text, which is no address
#[test]
fn validate_encode_with_no_client_ip_no_cgid_no_fqdn() {
    let encoded_label = encode_request_data(ClientIp::Invalid, "", "");

    assert_eq!("abaaaaaaaaaaaaaaaaaaaaaaaaaaa.", encoded_label);
}

// 1.2.3.4 and 0102:0304:0506:0708:090a:0b0c:0d0e:0f10
#[test]
fn encode_request_data_of_known_addresses() {
    assert_eq!(
        "abacaqdaaaaaaaamnjg3oubcyvrgm.example.com",
        encode_request_data(ClientIp::V4([1, 2, 3, 4]), "mv-456", "example.com")
    );
    assert_eq!(
        "abqcaqdaqcqmaaaynjg3oubcyvrgm.example.com",
        encode_request_data(
            ClientIp::V6([1, 2, 3, 4, 5, 6, 7, 8, 9, 10, 11, 12, 13, 14, 15, 16]),
            "mv-456",
            "example.com"
        )
    );
    assert_eq!(
        "abaaaaaaaaaaaaaanjg3oubcyvrgm.example.com",
        encode_request_data(ClientIp::Invalid, "mv-456", "example.com")
    );
    assert_eq!(
        "abacaqdaaaaaaaamaaaaaaaaaaaaa.example.com",
        encode_request_data(ClientIp::V4([1, 2, 3, 4]), "", "example.com")
    );
}
