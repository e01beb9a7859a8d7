use amazon_cloudfront_client_routing_lib::bitwise::get_mask;
use amazon_cloudfront_client_routing_lib::client_routing_label::EncodableData;

#[test]
fn mask_of_each_width() {
    assert_eq!(0, get_mask(0));
    assert_eq!(1, get_mask(1));
    assert_eq!(31, get_mask(5));
    assert_eq!(255, get_mask(8));
    assert_eq!(0x7fff_ffff_ffff_ffff, get_mask(63));
    assert_eq!(u64::MAX, get_mask(64));
    assert_eq!(u64::MAX, get_mask(65));
    assert_eq!(u64::MAX, get_mask(255));
}

#[test]
fn next_bits_come_from_the_front() {
    let mut encodable_data = EncodableData {
        value: 10,
        num_bits: 6,
    };

    assert_eq!(2, encodable_data.get_next_bits_to_encode(4));
    assert_eq!(2, encodable_data.num_bits);
    assert_eq!(2, encodable_data.value);
    assert_eq!(2, encodable_data.get_next_bits_to_encode(2));
    assert_eq!(0, encodable_data.num_bits);
    assert_eq!(0, encodable_data.value);
}

#[test]
fn next_bits_of_a_value_wider_than_its_field() {
    let mut encodable_data = EncodableData {
        value: 0b1_1011_0110,
        num_bits: 6,
    };

    assert_eq!(0b110, encodable_data.get_next_bits_to_encode(3));
    assert_eq!(0b110, encodable_data.value);
    assert_eq!(3, encodable_data.num_bits);
    assert_eq!(0, encodable_data.get_next_bits_to_encode(0));
    assert_eq!(0b110, encodable_data.value);
    assert_eq!(0b110, encodable_data.get_next_bits_to_encode(3));
    assert_eq!(0, encodable_data.value);
}

#[test]
fn next_bits_of_a_field_wider_than_its_value() {
    let mut encodable_data = EncodableData {
        value: u64::MAX,
        num_bits: 70,
    };

    assert_eq!(0, encodable_data.get_next_bits_to_encode(5));
    assert_eq!(u64::MAX, encodable_data.value);
    assert_eq!(65, encodable_data.num_bits);
    assert_eq!(0b0111, encodable_data.get_next_bits_to_encode(4));
    assert_eq!(u64::MAX >> 3, encodable_data.value);
    assert_eq!(61, encodable_data.num_bits);
    assert_eq!(0xff, encodable_data.get_next_bits_to_encode(8));
    assert_eq!(53, encodable_data.num_bits);
}

#[test]
fn has_bits_for_char_compares_with_what_is_left() {
    let encodable_data = EncodableData {
        value: 10,
        num_bits: 6,
    };

    assert_eq!(true, encodable_data.has_bits_for_char(5));
    assert_eq!(true, encodable_data.has_bits_for_char(6));
    assert_eq!(false, encodable_data.has_bits_for_char(7));
    assert_eq!(true, encodable_data.has_bits_for_char(0));
}

#[test]
fn added_bits_go_in_at_the_back() {
    let mut encodable_data = EncodableData {
        value: 0,
        num_bits: 10,
    };

    encodable_data.add_bits(6, 21);
    assert_eq!(21, encodable_data.value);
    assert_eq!(4, encodable_data.num_bits);

    encodable_data.add_bits(3, 6);
    assert_eq!(174, encodable_data.value);
    assert_eq!(1, encodable_data.num_bits);
}

#[test]
fn added_bits_push_the_oldest_out_of_64() {
    let mut encodable_data = EncodableData {
        value: u64::MAX,
        num_bits: 70,
    };

    encodable_data.add_bits(5, 0);
    assert_eq!(u64::MAX << 5, encodable_data.value);
    assert_eq!(65, encodable_data.num_bits);
}
